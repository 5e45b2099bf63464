use vstd::prelude::*;

use vstd::string::StrSliceExecFns;
use vstd::string::StringExecFns;
use crate::key::{sha256_of, Key};

verus! {

/// The character for a single decimal digit.
pub open spec fn digit_char(d: nat) -> char {
    if d == 0 {
        '0'
    } else if d == 1 {
        '1'
    } else if d == 2 {
        '2'
    } else if d == 3 {
        '3'
    } else if d == 4 {
        '4'
    } else if d == 5 {
        '5'
    } else if d == 6 {
        '6'
    } else if d == 7 {
        '7'
    } else if d == 8 {
        '8'
    } else {
        '9'
    }
}

/// The decimal rendering of a number, without leading zeros.
pub open spec fn dec_chars(n: nat) -> Seq<char>
    decreases n,
{
    if n < 10 {
        seq![digit_char(n)]
    } else {
        dec_chars(n / 10) + seq![digit_char(n % 10)]
    }
}

/// The textual "ip:port" form of an address.
pub open spec fn addr_of(ip: Seq<char>, port: u16) -> Seq<char> {
    ip + seq![':'] + dec_chars(port as nat)
}

fn digit_str(d: u16) -> (s: &'static str)
    requires
        d < 10,
    ensures
        s@ =~= seq![digit_char(d as nat)],
{
    proof {
        reveal_strlit("0");
        reveal_strlit("1");
        reveal_strlit("2");
        reveal_strlit("3");
        reveal_strlit("4");
        reveal_strlit("5");
        reveal_strlit("6");
        reveal_strlit("7");
        reveal_strlit("8");
        reveal_strlit("9");
    }
    if d == 0 {
        "0"
    } else if d == 1 {
        "1"
    } else if d == 2 {
        "2"
    } else if d == 3 {
        "3"
    } else if d == 4 {
        "4"
    } else if d == 5 {
        "5"
    } else if d == 6 {
        "6"
    } else if d == 7 {
        "7"
    } else if d == 8 {
        "8"
    } else {
        "9"
    }
}

/// Renders a port number in decimal.
pub fn dec_string(n: u16) -> (s: String)
    ensures
        s@ == dec_chars(n as nat),
    decreases n,
{
    if n < 10 {
        String::from_str(digit_str(n))
    } else {
        let mut s = dec_string(n / 10);
        s.append(digit_str(n % 10));
        s
    }
}

/// Renders a correlation counter in decimal.
pub fn dec_string64(n: u64) -> (s: String)
    ensures
        s@ == dec_chars(n as nat),
    decreases n,
{
    if n < 10 {
        String::from_str(digit_str(n as u16))
    } else {
        let mut s = dec_string64(n / 10);
        s.append(digit_str((n % 10) as u16));
        s
    }
}

/// A peer: an address and the identifier derived from it.
#[derive(Debug)]
pub struct Node {
    pub ip: String,
    pub port: u16,
    pub id: Key,
}

/// The ghost image of a node: what contracts speak about.
pub struct NodeV {
    pub ip: Seq<char>,
    pub port: u16,
    pub id: Seq<u8>,
}

/// The identifier is always the hash of the node's own "ip:port" text.
pub open spec fn nv_wf(n: NodeV) -> bool {
    &&& n.id.len() == crate::KEY_LEN
    &&& n.id == sha256_of(addr_of(n.ip, n.port))
}

impl View for Node {
    type V = NodeV;

    open spec fn view(&self) -> NodeV {
        NodeV { ip: self.ip@, port: self.port, id: self.id@ }
    }
}

impl Node {
    pub open spec fn wf(&self) -> bool {
        nv_wf(self@)
    }

    pub fn new(ip: String, port: u16) -> (r: Node)
        ensures
            r.ip@ == ip@,
            r.port == port,
            r.wf(),
    {
        let mut addr = ip.clone();
        append_colon(&mut addr);
        let p = dec_string(port);
        addr.append(p.as_str());
        proof {
            assert(addr@ == addr_of(ip@, port));
        }
        let id = Key::new(addr);
        Node { ip, port, id }
    }

    /// The textual "ip:port" address of the node.
    pub fn get_addr(&self) -> (s: String)
        ensures
            s@ == addr_of(self.ip@, self.port),
    {
        let mut s = self.ip.clone();
        append_colon(&mut s);
        let p = dec_string(self.port);
        s.append(p.as_str());
        s
    }
}

fn append_colon(s: &mut String)
    ensures
        final(s)@ == old(s)@ + seq![':'],
{
    proof {
        reveal_strlit(":");
        assert(":"@ =~= seq![':']);
    }
    s.append(":");
}

impl Clone for Node {
    fn clone(&self) -> (r: Self)
        ensures
            r@ == self@,
    {
        Node { ip: self.ip.clone(), port: self.port, id: self.id.clone() }
    }
}

// ---- reading an "ip:port" text back ----

/// Index of the first ':' in the text, if any.
pub open spec fn find_colon(s: Seq<char>) -> Option<nat>
    decreases s.len(),
{
    if s.len() == 0 {
        None
    } else if s[0] == ':' {
        Some(0)
    } else {
        match find_colon(s.skip(1)) {
            None => None,
            Some(i) => Some(i + 1),
        }
    }
}

pub open spec fn is_digit(c: char) -> bool {
    c == '0' || c == '1' || c == '2' || c == '3' || c == '4' || c == '5' || c == '6' || c == '7'
        || c == '8' || c == '9'
}

pub open spec fn digit_val(c: char) -> nat {
    if c == '0' {
        0
    } else if c == '1' {
        1
    } else if c == '2' {
        2
    } else if c == '3' {
        3
    } else if c == '4' {
        4
    } else if c == '5' {
        5
    } else if c == '6' {
        6
    } else if c == '7' {
        7
    } else if c == '8' {
        8
    } else {
        9
    }
}

pub open spec fn all_digits(s: Seq<char>) -> bool {
    forall|i: int| 0 <= i < s.len() ==> is_digit(#[trigger] s[i])
}

pub open spec fn digits_val(s: Seq<char>) -> nat
    decreases s.len(),
{
    if s.len() == 0 {
        0
    } else {
        digits_val(s.drop_last()) * 10 + digit_val(s.last())
    }
}

/// What an address text means: the part before the first ':' is the ip,
/// the digits after it are the port.
pub open spec fn parse_addr_spec(s: Seq<char>) -> Option<(Seq<char>, u16)> {
    match find_colon(s) {
        None => None,
        Some(i) => {
            let ip = s.take(i as int);
            let digits = s.skip(i as int + 1);
            if digits.len() > 0 && all_digits(digits) && digits_val(digits) < 0x10000 {
                Some((ip, digits_val(digits) as u16))
            } else {
                None
            }
        },
    }
}

proof fn lemma_digits_val_monotone(s: Seq<char>, i: int)
    requires
        0 <= i <= s.len(),
    ensures
        digits_val(s.take(i)) <= digits_val(s),
    decreases s.len() - i,
{
    if i < s.len() {
        lemma_digits_val_monotone(s, i + 1);
        assert(s.take(i + 1).drop_last() =~= s.take(i));
        assert(digits_val(s.take(i + 1)) == digits_val(s.take(i)) * 10 + digit_val(
            s.take(i + 1).last(),
        ));
        assert(digits_val(s.take(i)) * 10 >= digits_val(s.take(i))) by (nonlinear_arith);
    } else {
        assert(s.take(i) =~= s);
    }
}

fn digit_of_char(c: char) -> (r: Option<u32>)
    ensures
        match r {
            Some(d) => is_digit(c) && d == digit_val(c) && d <= 9,
            None => !is_digit(c),
        },
{
    if c == '0' {
        Some(0)
    } else if c == '1' {
        Some(1)
    } else if c == '2' {
        Some(2)
    } else if c == '3' {
        Some(3)
    } else if c == '4' {
        Some(4)
    } else if c == '5' {
        Some(5)
    } else if c == '6' {
        Some(6)
    } else if c == '7' {
        Some(7)
    } else if c == '8' {
        Some(8)
    } else if c == '9' {
        Some(9)
    } else {
        None
    }
}

/// Reads an "ip:port" text; anything else is rejected.
pub fn parse_addr(s: &String) -> (r: Option<(String, u16)>)
    ensures
        match r {
            Some(p) => parse_addr_spec(s@) == Some((p.0@, p.1)),
            None => parse_addr_spec(s@) is None,
        },
{
    let len = s.as_str().unicode_len();
    // find the first ':'
    let mut ci: usize = 0;
    let mut found = false;
    while ci < len && !found
        invariant
            len == s@.len(),
            ci <= len,
            !found ==> forall|q: int| 0 <= q < ci ==> s@[q] != ':',
            found ==> ci < len && s@[ci as int] == ':' && (forall|q: int|
                0 <= q < ci ==> s@[q] != ':'),
        decreases len - ci, (if found { 0int } else { 1int }),
    {
        let c = s.as_str().get_char(ci);
        if c == ':' {
            found = true;
        } else {
            ci = ci + 1;
        }
    }
    if !found {
        proof {
            lemma_no_colon_not_found(s@);
        }
        return None;
    }
    proof {
        lemma_colon_found(s@, ci as int);
    }
    let ip = s.as_str().substring_char(0, ci);
    if ci + 1 >= len {
        // nothing after the ':'
        return None;
    }
    // read the decimal digits after the ':'
    let mut j: usize = ci + 1;
    let mut acc: u32 = 0;
    let ghost digits = s@.skip(ci as int + 1);
    while j < len
        invariant
            len == s@.len(),
            ci + 1 <= j <= len,
            find_colon(s@) == Some(ci as nat),
            digits == s@.skip(ci as int + 1),
            acc == digits_val(digits.take(j - ci - 1)),
            acc < 0x10000,
            all_digits(digits.take(j - ci - 1)),
        decreases len - j,
    {
        let c = s.as_str().get_char(j);
        let d: u32 = match digit_of_char(c) {
            Some(d) => d,
            None => {
                proof {
                    assert(digits[j - ci - 1] == s@[j as int]);
                    assert(!is_digit(digits[j - ci - 1]));
                }
                return None;
            },
        };
        proof {
            assert(digits.take(j - ci).drop_last() =~= digits.take(j - ci - 1));
            assert(digits.take(j - ci).last() == digits[j - ci - 1]);
            assert(digits[j - ci - 1] == s@[j as int]);
        }
        if acc > 6553 || (acc == 6553 && d > 5) {
            // the digits read so far already outgrow a port number
            proof {
                assert(digits_val(digits.take(j - ci)) >= 0x10000) by (nonlinear_arith)
                    requires
                        digits_val(digits.take(j - ci)) == digits_val(digits.take(j - ci - 1)) * 10
                            + digit_val(digits.take(j - ci).last()),
                        digits_val(digits.take(j - ci - 1)) == acc,
                        digit_val(digits.take(j - ci).last()) == d,
                        d <= 9,
                        acc > 6553 || (acc == 6553 && d > 5),
                ;
                lemma_digits_val_monotone(digits, j - ci);
            }
            return None;
        }
        acc = acc * 10 + d;
        j = j + 1;
    }
    proof {
        assert(digits.take(len - ci - 1) =~= digits);
    }
    Some((ip.to_owned(), acc as u16))
}

proof fn lemma_no_colon_not_found(s: Seq<char>)
    requires
        forall|q: int| 0 <= q < s.len() ==> s[q] != ':',
    ensures
        find_colon(s) is None,
    decreases s.len(),
{
    if s.len() > 0 {
        lemma_no_colon_not_found(s.skip(1));
    }
}

proof fn lemma_colon_found(s: Seq<char>, i: int)
    requires
        0 <= i < s.len(),
        s[i] == ':',
        forall|q: int| 0 <= q < i ==> s[q] != ':',
    ensures
        find_colon(s) == Some(i as nat),
    decreases i,
{
    if i > 0 {
        lemma_colon_found(s.skip(1), i - 1);
    }
}

// ---- the parser undoes the address rendering ----

proof fn lemma_dec_chars_digits(n: nat)
    ensures
        dec_chars(n).len() > 0,
        all_digits(dec_chars(n)),
        forall|i: int| 0 <= i < dec_chars(n).len() ==> #[trigger] dec_chars(n)[i] != ':',
        digits_val(dec_chars(n)) == n,
    decreases n,
{
    if n < 10 {
        assert(dec_chars(n) =~= seq![digit_char(n)]);
        assert(is_digit(digit_char(n)));
        assert(digit_val(digit_char(n)) == n);
        assert(seq![digit_char(n)].drop_last() =~= Seq::<char>::empty());
        assert(seq![digit_char(n)].last() == digit_char(n));
        assert(digits_val(Seq::<char>::empty()) == 0);
    } else {
        lemma_dec_chars_digits(n / 10);
        let w = dec_chars(n / 10);
        let c = digit_char(n % 10);
        assert(dec_chars(n) == w + seq![c]);
        assert((w + seq![c]).drop_last() =~= w);
        assert((w + seq![c]).last() == c);
        assert(is_digit(c) && digit_val(c) == n % 10);
        assert(digits_val(dec_chars(n)) == digits_val(w) * 10 + (n % 10));
        assert((n / 10) * 10 + n % 10 == n) by (nonlinear_arith);
        assert forall|i: int| 0 <= i < dec_chars(n).len() implies #[trigger] dec_chars(n)[i]
            != ':' by {
            if i < w.len() {
                assert(dec_chars(n)[i] == w[i]);
            } else {
                assert(dec_chars(n)[i] == c);
            }
        }
        assert forall|i: int| 0 <= i < dec_chars(n).len() implies is_digit(
            #[trigger] dec_chars(n)[i],
        ) by {
            if i < w.len() {
                assert(dec_chars(n)[i] == w[i]);
            } else {
                assert(dec_chars(n)[i] == c);
            }
        }
    }
}

/// Reading an address text back yields the ip and port it was built
/// from, as long as the ip itself holds no ':'.
pub proof fn lemma_parse_addr_round_trip(ip: Seq<char>, port: u16)
    requires
        forall|q: int| 0 <= q < ip.len() ==> ip[q] != ':',
    ensures
        parse_addr_spec(addr_of(ip, port)) == Some((ip, port)),
{
    let s = addr_of(ip, port);
    let digits = dec_chars(port as nat);
    lemma_dec_chars_digits(port as nat);
    assert(s[ip.len() as int] == ':');
    assert forall|q: int| 0 <= q < ip.len() implies s[q] != ':' by {
        assert(s[q] == ip[q]);
    }
    lemma_colon_found(s, ip.len() as int);
    assert(s.take(ip.len() as int) =~= ip);
    assert(s.skip(ip.len() as int + 1) =~= digits);
}

// ---- hexadecimal rendering of identifiers ----

pub open spec fn hex_digit(d: nat) -> char {
    if d == 0 {
        '0'
    } else if d == 1 {
        '1'
    } else if d == 2 {
        '2'
    } else if d == 3 {
        '3'
    } else if d == 4 {
        '4'
    } else if d == 5 {
        '5'
    } else if d == 6 {
        '6'
    } else if d == 7 {
        '7'
    } else if d == 8 {
        '8'
    } else if d == 9 {
        '9'
    } else if d == 10 {
        'A'
    } else if d == 11 {
        'B'
    } else if d == 12 {
        'C'
    } else if d == 13 {
        'D'
    } else if d == 14 {
        'E'
    } else {
        'F'
    }
}

/// Upper-case hexadecimal text of a byte sequence, two digits per byte.
pub open spec fn hex_chars(s: Seq<u8>) -> Seq<char>
    decreases s.len(),
{
    if s.len() == 0 {
        Seq::<char>::empty()
    } else {
        hex_chars(s.drop_last()) + seq![
            hex_digit((s.last() / 16) as nat),
            hex_digit((s.last() % 16) as nat),
        ]
    }
}

fn hex_digit_str(d: u8) -> (r: &'static str)
    requires
        d < 16,
    ensures
        r@ =~= seq![hex_digit(d as nat)],
{
    proof {
        reveal_strlit("0");
        reveal_strlit("1");
        reveal_strlit("2");
        reveal_strlit("3");
        reveal_strlit("4");
        reveal_strlit("5");
        reveal_strlit("6");
        reveal_strlit("7");
        reveal_strlit("8");
        reveal_strlit("9");
        reveal_strlit("A");
        reveal_strlit("B");
        reveal_strlit("C");
        reveal_strlit("D");
        reveal_strlit("E");
        reveal_strlit("F");
    }
    if d == 0 {
        "0"
    } else if d == 1 {
        "1"
    } else if d == 2 {
        "2"
    } else if d == 3 {
        "3"
    } else if d == 4 {
        "4"
    } else if d == 5 {
        "5"
    } else if d == 6 {
        "6"
    } else if d == 7 {
        "7"
    } else if d == 8 {
        "8"
    } else if d == 9 {
        "9"
    } else if d == 10 {
        "A"
    } else if d == 11 {
        "B"
    } else if d == 12 {
        "C"
    } else if d == 13 {
        "D"
    } else if d == 14 {
        "E"
    } else {
        "F"
    }
}

/// Renders bytes as upper-case hex, two digits per byte.
pub fn hex_string(v: &Vec<u8>) -> (s: String)
    ensures
        s@ == hex_chars(v@),
{
    let mut s = String::new();
    let mut i: usize = 0;
    while i < v.len()
        invariant
            i <= v@.len(),
            s@ == hex_chars(v@.take(i as int)),
        decreases v@.len() - i,
    {
        let b = v[i];
        s.append(hex_digit_str(b / 16));
        s.append(hex_digit_str(b % 16));
        proof {
            assert(v@.take(i + 1).drop_last() =~= v@.take(i as int));
            assert(v@.take(i + 1).last() == v@[i as int]);
            assert(s@ =~= hex_chars(v@.take(i + 1)));
        }
        i = i + 1;
    }
    proof {
        assert(v@.take(v@.len() as int) =~= v@);
    }
    s
}

impl Node {
    /// The node's address and identifier as one line of text:
    /// "ip:port:HEX".
    pub fn get_info(&self) -> (s: String)
        ensures
            s@ == addr_of(self.ip@, self.port) + seq![':'] + hex_chars(self.id@),
    {
        let mut s = self.get_addr();
        append_colon(&mut s);
        let h = hex_string(&self.id.0);
        s.append(h.as_str());
        s
    }
}

} // verus!
