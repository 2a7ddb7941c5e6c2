//! What the waiting participant is told when a peer enters its room: the
//! peer's profile as text, sent to a fixed port of the waiting participant.
use vstd::prelude::*;
use crate::model::{IpAddress, User, UserModel};

verus! {

/// The port on which a waiting participant listens for its peer's profile.
pub const NOTIFY_PORT: u16 = 8888;

/// A profile to deliver: open a connection to `target` on `port`, write
/// `payload`, close.
pub struct Notification {
    pub target: IpAddress,
    pub port: u16,
    pub payload: String,
}

/// The decimal digit `d` (for `0 <= d < 10`).
pub open spec fn digit(d: int) -> char {
    if d == 0 {
        '0'
    } else if d == 1 {
        '1'
    } else if d == 2 {
        '2'
    } else if d == 3 {
        '3'
    } else if d == 4 {
        '4'
    } else if d == 5 {
        '5'
    } else if d == 6 {
        '6'
    } else if d == 7 {
        '7'
    } else if d == 8 {
        '8'
    } else {
        '9'
    }
}

pub open spec fn is_digit(c: char) -> bool {
    '0' <= c <= '9'
}

/// `n` written in decimal, without leading zeros.
pub open spec fn decimal(n: u8) -> Seq<char> {
    if n < 10 {
        seq![digit(n as int)]
    } else if n < 100 {
        seq![digit(n as int / 10), digit(n as int % 10)]
    } else {
        seq![digit(n as int / 100), digit((n as int / 10) % 10), digit(n as int % 10)]
    }
}

pub open spec fn name_open() -> Seq<char> {
    "\n{\n    \"name\" : \""@
}

pub open spec fn ip_open() -> Seq<char> {
    "\",\n    \"ip\" : ["@
}

pub open spec fn octet_sep() -> Seq<char> {
    ", "@
}

pub open spec fn delta_open() -> Seq<char> {
    "],\n    \"delta_seconds\" : "@
}

pub open spec fn text_close() -> Seq<char> {
    " \n}"@
}

/// A name character as it is written: `"` and `\\` get a `\\` before them.
pub open spec fn escaped_char(c: char) -> Seq<char> {
    if c == '"' || c == '\\' {
        seq!['\\', c]
    } else {
        seq![c]
    }
}

/// A name as it is written between its quotes.
pub open spec fn escape(s: Seq<char>) -> Seq<char>
    decreases s.len(),
{
    if s.len() == 0 {
        Seq::empty()
    } else {
        escaped_char(s[0]) + escape(s.drop_first())
    }
}

/// The four octets as a bracketed list: `192, 168, 0, 1`.
pub open spec fn octets_text(a: u8, b: u8, c: u8, d: u8) -> Seq<char> {
    decimal(a) + octet_sep() + decimal(b) + octet_sep() + decimal(c) + octet_sep() + decimal(d)
}

/// The text that carries a participant with an IPv4 address. The name is
/// written between quotes, escaped, so that any name can be read back.
pub open spec fn user_text(u: UserModel) -> Seq<char> {
    match u.ip {
        IpAddress::V4(a, b, c, d) => name_open() + escape(u.name) + ip_open() + octets_text(a, b, c, d)
            + delta_open() + u.delta_seconds + text_close(),
        IpAddress::V6(_) => Seq::empty(),
    }
}

fn digit_text(d: u8) -> (r: &'static str)
    requires
        d < 10,
    ensures
        r@ == seq![digit(d as int)],
{
    proof {
        reveal_strlit("0");
        reveal_strlit("1");
        reveal_strlit("2");
        reveal_strlit("3");
        reveal_strlit("4");
        reveal_strlit("5");
        reveal_strlit("6");
        reveal_strlit("7");
        reveal_strlit("8");
        reveal_strlit("9");
    }
    let r = match d {
        0 => "0",
        1 => "1",
        2 => "2",
        3 => "3",
        4 => "4",
        5 => "5",
        6 => "6",
        7 => "7",
        8 => "8",
        _ => "9",
    };
    assert(r@ =~= seq![digit(d as int)]);
    r
}

fn append_decimal(t: &mut String, n: u8)
    ensures
        final(t)@ == old(t)@ + decimal(n),
{
    if n >= 100 {
        t.append(digit_text(n / 100));
    }
    if n >= 10 {
        t.append(digit_text((n / 10) % 10));
    }
    t.append(digit_text(n % 10));
    assert(t@ =~= old(t)@ + decimal(n));
}

fn append_escaped(t: &mut String, s: &str)
    ensures
        final(t)@ == old(t)@ + escape(s@),
{
    let cs = chars_of(s);
    let mut i: usize = 0;
    proof {
        assert(cs@.skip(0) =~= cs@);
    }
    while i < cs.len()
        invariant
            i <= cs.len(),
            t@ + escape(cs@.skip(i as int)) == old(t)@ + escape(s@),
            cs@ == s@,
        decreases cs.len() - i,
    {
        let c = cs[i];
        let ghost before = t@;
        proof {
            assert(cs@.skip(i as int).drop_first() =~= cs@.skip(i + 1));
            assert(escape(cs@.skip(i as int)) == escaped_char(c) + escape(cs@.skip(i + 1)));
        }
        proof {
            reveal_strlit("\\\"");
            reveal_strlit("\\\\");
        }
        if c == '"' {
            t.append("\\\"");
            assert(t@ =~= before + escaped_char(c));
        } else if c == '\\' {
            t.append("\\\\");
            assert(t@ =~= before + escaped_char(c));
        } else {
            push_char(t, c);
            assert(t@ =~= before + escaped_char(c));
        }
        assert(t@ + escape(cs@.skip(i + 1)) =~= before + escape(cs@.skip(i as int)));
        i += 1;
    }
    assert(cs@.skip(i as int) =~= Seq::<char>::empty());
    assert(t@ =~= old(t)@ + escape(s@));
}

/// Writes `user` in the form its peer receives; `None` when its address
/// cannot be written as four octets.
pub fn encode_user(user: &User) -> (r: Option<String>)
    ensures
        match r {
            Some(t) => user@.ip is V4 && t@ == user_text(user@),
            None => !(user@.ip is V4),
        },
{
    match user.ip {
        IpAddress::V4(a, b, c, d) => {
            let mut t = String::new();
            t.append("\n{\n    \"name\" : \"");
            append_escaped(&mut t, user.name.as_str());
            t.append("\",\n    \"ip\" : [");
            append_decimal(&mut t, a);
            t.append(", ");
            append_decimal(&mut t, b);
            t.append(", ");
            append_decimal(&mut t, c);
            t.append(", ");
            append_decimal(&mut t, d);
            t.append("],\n    \"delta_seconds\" : ");
            t.append(user.delta_seconds.as_str());
            t.append(" \n}");
            assert(t@ =~= user_text(user@));
            Some(t)
        },
        IpAddress::V6(_) => None,
    }
}

/// Relies on `String::push`: appends one character.
#[verifier::external_body]
fn push_char(s: &mut String, c: char)
    ensures
        final(s)@ == old(s)@.push(c),
{
    s.push(c)
}

fn chars_of(s: &str) -> (r: Vec<char>)
    ensures
        r@ == s@,
{
    let mut r: Vec<char> = Vec::new();
    for c in it: s.chars()
        invariant
            r@ == it.seq().take(it.index() as int),
    {
        r.push(c);
    }
    assert(r@ =~= s@);
    r
}

fn string_of(t: &Vec<char>, lo: usize, hi: usize) -> (r: String)
    requires
        lo <= hi <= t.len(),
    ensures
        r@ == t@.subrange(lo as int, hi as int),
{
    let mut s = String::new();
    let mut i: usize = lo;
    while i < hi
        invariant
            lo <= i <= hi <= t.len(),
            s@ == t@.subrange(lo as int, i as int),
        decreases hi - i,
    {
        push_char(&mut s, t[i]);
        i += 1;
        assert(s@ =~= t@.subrange(lo as int, i as int));
    }
    s
}

fn digit_at(t: &Vec<char>, i: usize) -> (r: Option<u8>)
    ensures
        match r {
            Some(d) => i < t.len() && d < 10 && t@[i as int] == digit(d as int),
            None => i >= t.len() || !is_digit(t@[i as int]),
        },
{
    if i >= t.len() {
        return None;
    }
    match t[i] {
        '0' => Some(0),
        '1' => Some(1),
        '2' => Some(2),
        '3' => Some(3),
        '4' => Some(4),
        '5' => Some(5),
        '6' => Some(6),
        '7' => Some(7),
        '8' => Some(8),
        '9' => Some(9),
        _ => None,
    }
}

/// `v` is written in decimal at `pos` of `t`, and a character that is no
/// digit follows it.
pub open spec fn octet_at(t: Seq<char>, pos: int, v: u8) -> bool {
    let k = decimal(v).len() as int;
    0 <= pos && pos + k < t.len() && t.subrange(pos, pos + k) == decimal(v) && !is_digit(t[pos + k])
}

proof fn lemma_decimal_digits(v: u8)
    ensures
        1 <= decimal(v).len() <= 3,
        forall|k: int| 0 <= k < decimal(v).len() ==> is_digit(#[trigger] decimal(v)[k]),
        decimal(v).len() == 1 <==> v < 10,
        decimal(v).len() == 2 <==> 10 <= v < 100,
{
}

/// At most one octet is written at a given place.
proof fn lemma_octet_unique(t: Seq<char>, pos: int, v1: u8, v2: u8)
    requires
        octet_at(t, pos, v1),
        octet_at(t, pos, v2),
    ensures
        v1 == v2,
{
    lemma_decimal_digits(v1);
    lemma_decimal_digits(v2);
    let k1 = decimal(v1).len() as int;
    let k2 = decimal(v2).len() as int;
    if k1 < k2 {
        assert(t[pos + k1] == t.subrange(pos, pos + k2)[k1]);
    } else if k2 < k1 {
        assert(t[pos + k2] == t.subrange(pos, pos + k1)[k2]);
    } else {
        assert(decimal(v1) == decimal(v2));
        assert(decimal(v1)[k1 - 1] == decimal(v2)[k1 - 1]);
        if k1 >= 2 {
            assert(decimal(v1)[k1 - 2] == decimal(v2)[k1 - 2]);
        }
        if k1 == 3 {
            assert(decimal(v1)[0] == decimal(v2)[0]);
        }
    }
}

/// Reads the decimal number at `pos`: the one that `octet_at` places there,
/// whenever there is one.
fn parse_octet(t: &Vec<char>, pos: usize) -> (r: Option<(u8, usize)>)
    requires
        pos <= t.len(),
    ensures
        r matches Some((v, e)) ==> pos < e <= t.len(),
        forall|v: u8|
            #[trigger] octet_at(t@, pos as int, v) ==> r == Some(
                (v, (pos + decimal(v).len()) as usize),
            ),
{
    let r = match digit_at(t, pos) {
        None => None,
        Some(d0) => match digit_at(t, pos + 1) {
            None => Some((d0, pos + 1)),
            Some(d1) => match digit_at(t, pos + 2) {
                None => Some((d0 * 10 + d1, pos + 2)),
                Some(d2) => {
                    let v: u32 = d0 as u32 * 100 + d1 as u32 * 10 + d2 as u32;
                    if v <= 255 {
                        Some((v as u8, pos + 3))
                    } else {
                        None
                    }
                },
            },
        },
    };
    proof {
        assert forall|v: u8| #[trigger] octet_at(t@, pos as int, v) implies r == Some(
            (v, (pos + decimal(v).len()) as usize),
        ) by {
            lemma_decimal_digits(v);
            let k = decimal(v).len() as int;
            let w = t@.subrange(pos as int, pos + k);
            assert(t@[pos as int] == w[0]);
            if k >= 2 {
                assert(t@[pos + 1] == w[1]);
            }
            if k == 3 {
                assert(t@[pos + 2] == w[2]);
            }
        }
    }
    r
}

/// `u` can be sent and read back: its address has four octets.
pub open spec fn encodable(u: UserModel) -> bool {
    u.ip is V4
}

/// The written form of name `n` stands at `from` in `t`, closed by a `"`.
pub open spec fn name_at(t: Seq<char>, from: int, n: Seq<char>) -> bool {
    let e = from + escape(n).len();
    0 <= from && e < t.len() && t.subrange(from, e) == escape(n) && t[e] == '"'
}

/// At most one name is written at a given place.
proof fn lemma_name_unique(t: Seq<char>, from: int, n1: Seq<char>, n2: Seq<char>)
    requires
        name_at(t, from, n1),
        name_at(t, from, n2),
    ensures
        n1 == n2,
    decreases n1.len(),
{
    let e1 = escape(n1);
    let e2 = escape(n2);
    if n1.len() == 0 && n2.len() == 0 {
        assert(n1 =~= n2);
    } else if n1.len() == 0 {
        assert(t[from] == t.subrange(from, from + e2.len())[0]);
    } else if n2.len() == 0 {
        assert(t[from] == t.subrange(from, from + e1.len())[0]);
    } else {
        let c1 = escaped_char(n1[0]);
        let c2 = escaped_char(n2[0]);
        let r1 = n1.drop_first();
        let r2 = n2.drop_first();
        assert(e1 == c1 + escape(r1));
        assert(e2 == c2 + escape(r2));
        assert(t[from] == t.subrange(from, from + e1.len())[0]);
        assert(t[from] == t.subrange(from, from + e2.len())[0]);
        if c1.len() == 2 {
            assert(t[from + 1] == t.subrange(from, from + e1.len())[1]);
        }
        if c2.len() == 2 {
            assert(t[from + 1] == t.subrange(from, from + e2.len())[1]);
        }
        assert(n1[0] == n2[0]);
        let l = c1.len() as int;
        assert(t.subrange(from + l, from + e1.len()) =~= escape(r1)) by {
            assert forall|i: int| 0 <= i < escape(r1).len() implies t[from + l + i] == escape(r1)[i] by {
                assert(t[from + l + i] == t.subrange(from, from + e1.len())[l + i]);
            }
        }
        assert(t.subrange(from + l, from + e2.len()) =~= escape(r2)) by {
            assert forall|i: int| 0 <= i < escape(r2).len() implies t[from + l + i] == escape(r2)[i] by {
                assert(t[from + l + i] == t.subrange(from, from + e2.len())[l + i]);
            }
        }
        lemma_name_unique(t, from + l, r1, r2);
        assert(n1 =~= n2) by {
            assert(n1 == seq![n1[0]] + r1);
            assert(n2 == seq![n2[0]] + r2);
        }
    }
}

/// `text` is what `u` is sent as.
pub open spec fn decodes_to(text: Seq<char>, u: UserModel) -> bool {
    encodable(u) && user_text(u) == text
}

/// The participant that `text` carries, if it carries one.
pub open spec fn decoded(text: Seq<char>) -> Option<UserModel> {
    if exists|u: UserModel| decodes_to(text, u) {
        Some(choose|u: UserModel| decodes_to(text, u))
    } else {
        None
    }
}

/// Where the name ends in the text of `u`.
pub open spec fn name_end(u: UserModel) -> int {
    (name_open().len() + escape(u.name).len()) as int
}

/// Where the octet with index `k` (0 to 3) starts in the text of `u`.
pub open spec fn octet_start(u: UserModel, k: int) -> int {
    let sep = octet_sep().len() as int;
    let s0 = name_end(u) + ip_open().len() as int;
    let s1 = s0 + decimal(octet(u.ip, 0)).len() as int + sep;
    let s2 = s1 + decimal(octet(u.ip, 1)).len() as int + sep;
    let s3 = s2 + decimal(octet(u.ip, 2)).len() as int + sep;
    if k == 0 {
        s0
    } else if k == 1 {
        s1
    } else if k == 2 {
        s2
    } else {
        s3
    }
}

/// Octet `k` of an IPv4 address.
pub open spec fn octet(ip: IpAddress, k: int) -> u8 {
    match ip {
        IpAddress::V4(a, b, c, d) => if k == 0 {
            a
        } else if k == 1 {
            b
        } else if k == 2 {
            c
        } else {
            d
        },
        IpAddress::V6(_) => 0,
    }
}

/// Where the clock hint starts in the text of `u`.
pub open spec fn delta_start(u: UserModel) -> int {
    octet_start(u, 3) + decimal(octet(u.ip, 3)).len() as int + delta_open().len() as int
}

proof fn lemma_literals()
    ensures
        ip_open().len() >= 1,
        ip_open()[0] == '"',
        octet_sep() == seq![',', ' '],
        delta_open().len() >= 1,
        delta_open()[0] == ']',
        text_close().len() == 3,
{
    reveal_strlit("\n{\n    \"name\" : \"");
    reveal_strlit("\",\n    \"ip\" : [");
    reveal_strlit(", ");
    reveal_strlit("],\n    \"delta_seconds\" : ");
    reveal_strlit(" \n}");
}

/// A text that begins with `x + y` holds `x`, then `y`.
proof fn lemma_split(t: Seq<char>, x: Seq<char>, y: Seq<char>)
    requires
        (x + y).len() <= t.len(),
        t.subrange(0, (x + y).len() as int) == x + y,
    ensures
        t.subrange(0, x.len() as int) == x,
        t.subrange(x.len() as int, (x + y).len() as int) == y,
{
    let w = t.subrange(0, (x + y).len() as int);
    assert forall|i: int| 0 <= i < x.len() implies t[i] == x[i] by {
        assert(t[i] == w[i]);
    }
    assert forall|i: int| 0 <= i < y.len() implies t[x.len() + i] == y[i] by {
        assert(t[x.len() + i] == w[x.len() + i]);
    }
    assert(t.subrange(0, x.len() as int) =~= x);
    assert(t.subrange(x.len() as int, (x + y).len() as int) =~= y);
}

/// Where each field stands in the text of a participant.
#[verifier::rlimit(60)]
proof fn lemma_text_layout(u: UserModel)
    requires
        u.ip is V4,
    ensures
        ({
            let t = user_text(u);
            &&& name_at(t, name_open().len() as int, u.name)
            &&& octet_at(t, octet_start(u, 0), octet(u.ip, 0))
            &&& octet_at(t, octet_start(u, 1), octet(u.ip, 1))
            &&& octet_at(t, octet_start(u, 2), octet(u.ip, 2))
            &&& octet_at(t, octet_start(u, 3), octet(u.ip, 3))
            &&& t.len() == delta_start(u) + u.delta_seconds.len() + 3
            &&& t.subrange(delta_start(u), t.len() - 3) == u.delta_seconds
        }),
{
    lemma_literals();
    let (a, b, c, d) = (octet(u.ip, 0), octet(u.ip, 1), octet(u.ip, 2), octet(u.ip, 3));
    let x1 = name_open() + escape(u.name);
    let x2 = x1 + ip_open();
    let x3 = x2 + decimal(a);
    let x4 = x3 + octet_sep();
    let x5 = x4 + decimal(b);
    let x6 = x5 + octet_sep();
    let x7 = x6 + decimal(c);
    let x8 = x7 + octet_sep();
    let x9 = x8 + decimal(d);
    let x10 = x9 + delta_open();
    let x11 = x10 + u.delta_seconds;
    let t = x11 + text_close();
    assert(t =~= user_text(u));
    assert(t.subrange(0, t.len() as int) =~= t);
    lemma_split(t, x11, text_close());
    lemma_split(t, x10, u.delta_seconds);
    lemma_split(t, x9, delta_open());
    lemma_split(t, x8, decimal(d));
    lemma_split(t, x7, octet_sep());
    lemma_split(t, x6, decimal(c));
    lemma_split(t, x5, octet_sep());
    lemma_split(t, x4, decimal(b));
    lemma_split(t, x3, octet_sep());
    lemma_split(t, x2, decimal(a));
    lemma_split(t, x1, ip_open());
    lemma_split(t, name_open(), escape(u.name));
    lemma_decimal_digits(a);
    lemma_decimal_digits(b);
    lemma_decimal_digits(c);
    lemma_decimal_digits(d);
    assert(t[name_end(u)] == t.subrange(x1.len() as int, x2.len() as int)[0]);
    assert(t[x3.len() as int] == t.subrange(x3.len() as int, x4.len() as int)[0]);
    assert(t[x5.len() as int] == t.subrange(x5.len() as int, x6.len() as int)[0]);
    assert(t[x7.len() as int] == t.subrange(x7.len() as int, x8.len() as int)[0]);
    assert(t[x9.len() as int] == t.subrange(x9.len() as int, x10.len() as int)[0]);
}

/// Decoding what a participant is sent as gives that participant back:
/// no other sendable participant is sent as the same text.
pub proof fn lemma_round_trip(u: UserModel)
    requires
        encodable(u),
    ensures
        decoded(user_text(u)) == Some(u),
{
    let t = user_text(u);
    assert(decodes_to(t, u));
    let v = choose|v: UserModel| decodes_to(t, v);
    lemma_same_text_same_user(t, u, v);
}

proof fn lemma_same_text_same_user(t: Seq<char>, u: UserModel, v: UserModel)
    requires
        decodes_to(t, u),
        decodes_to(t, v),
    ensures
        u == v,
{
    lemma_literals();
    lemma_text_layout(u);
    lemma_text_layout(v);
    let p0 = name_open().len() as int;
    lemma_name_unique(t, p0, u.name, v.name);
    assert(u.name == v.name);
    lemma_octet_unique(t, octet_start(u, 0), octet(u.ip, 0), octet(v.ip, 0));
    lemma_octet_unique(t, octet_start(u, 1), octet(u.ip, 1), octet(v.ip, 1));
    lemma_octet_unique(t, octet_start(u, 2), octet(u.ip, 2), octet(v.ip, 2));
    lemma_octet_unique(t, octet_start(u, 3), octet(u.ip, 3), octet(v.ip, 3));
    assert(u.ip == v.ip);
    assert(u.delta_seconds == v.delta_seconds);
}

/// Reads the name written at `from`, up to its closing `"`: the name that
/// `name_at` places there, whenever there is one.
fn scan_name(t: &Vec<char>, from: usize, Ghost(n): Ghost<Seq<char>>) -> (r: Option<(String, usize)>)
    requires
        from <= t.len(),
    ensures
        r matches Some((_, q)) ==> from <= q < t.len(),
        name_at(t@, from as int, n) ==> (r matches Some((name, q)) && name@ == n && q == from
            + escape(n).len()),
{
    let ghost ok = name_at(t@, from as int, n);
    let ghost e = from + escape(n).len();
    let mut out = String::new();
    let mut k: usize = from;
    let ghost mut rest = n;
    proof {
        if ok {
            assert(out@ + rest =~= n);
        }
    }
    while k < t.len()
        invariant
            from <= k <= t.len(),
            ok == name_at(t@, from as int, n),
            e == from + escape(n).len(),
            ok ==> out@ + rest == n && k + escape(rest).len() == e && t@.subrange(
                k as int,
                e,
            ) == escape(rest),
        decreases t.len() - k,
    {
        let c = t[k];
        proof {
            if ok && rest.len() > 0 {
                assert(escape(rest) == escaped_char(rest[0]) + escape(rest.drop_first()));
                assert(t@[k as int] == t@.subrange(k as int, e)[0]);
                if escaped_char(rest[0]).len() == 2 {
                    assert(t@[k + 1] == t@.subrange(k as int, e)[1]);
                }
            }
        }
        if c == '"' {
            proof {
                if ok {
                    assert(out@ =~= n);
                }
            }
            return Some((out, k));
        }
        let step: usize = if c == '\\' { 2 } else { 1 };
        if step > t.len() - k {
            return None;
        }
        let ghost before = out@;
        if c == '\\' {
            push_char(&mut out, t[k + 1]);
        } else {
            push_char(&mut out, c);
        }
        proof {
            if ok {
                let r2 = rest.drop_first();
                assert(out@ + r2 =~= before + rest);
                assert(t@.subrange(k + step, e) =~= escape(r2)) by {
                    assert forall|i: int| 0 <= i < escape(r2).len() implies t@[k + step + i]
                        == escape(r2)[i] by {
                        assert(t@[k + step + i] == t@.subrange(k as int, e)[step + i]);
                    }
                }
            }
            rest = rest.drop_first();
        }
        k = k + step;
    }
    None
}

/// Reads a participant back from the text it was sent as; `None` when the
/// text is not what any sendable participant is sent as.
pub fn decode_user(text: &str) -> (r: Option<User>)
    ensures
        match r {
            Some(u) => decoded(text@) == Some(u@),
            None => decoded(text@) is None,
        },
{
    let t = chars_of(text);
    let n = t.len();
    let ghost u0 = choose|u: UserModel| decodes_to(text@, u);
    let ghost ok = decodes_to(text@, u0);
    proof {
        lemma_literals();
        if ok {
            lemma_text_layout(u0);
            lemma_decimal_digits(octet(u0.ip, 0));
            lemma_decimal_digits(octet(u0.ip, 1));
            lemma_decimal_digits(octet(u0.ip, 2));
            lemma_decimal_digits(octet(u0.ip, 3));
        }
    }
    let p0 = chars_of("\n{\n    \"name\" : \"").len();
    let ip_len = chars_of("\",\n    \"ip\" : [").len();
    let sep_len = chars_of(", ").len();
    let delta_len = chars_of("],\n    \"delta_seconds\" : ").len();
    if p0 > n {
        return None;
    }
    let (name, q) = match scan_name(&t, p0, Ghost(u0.name)) {
        Some(x) => x,
        None => {
            return None;
        },
    };
    if ip_len > n - q {
        return None;
    }
    let (a, e0) = match parse_octet(&t, q + ip_len) {
        Some(x) => x,
        None => {
            return None;
        },
    };
    if sep_len > n - e0 {
        return None;
    }
    let (b, e1) = match parse_octet(&t, e0 + sep_len) {
        Some(x) => x,
        None => {
            return None;
        },
    };
    if sep_len > n - e1 {
        return None;
    }
    let (c, e2) = match parse_octet(&t, e1 + sep_len) {
        Some(x) => x,
        None => {
            return None;
        },
    };
    if sep_len > n - e2 {
        return None;
    }
    let (d, e3) = match parse_octet(&t, e2 + sep_len) {
        Some(x) => x,
        None => {
            return None;
        },
    };
    if n < 3 || e3 > n - 3 || delta_len > n - 3 - e3 {
        return None;
    }
    let delta_seconds = string_of(&t, e3 + delta_len, n - 3);
    let user = User { name, ip: IpAddress::V4(a, b, c, d), delta_seconds };
    proof {
        if ok {
            assert(user@ == u0);
        }
    }
    match encode_user(&user) {
        Some(e) => {
            let whole = text.to_owned();
            if e == whole {
                proof {
                    assert(decodes_to(text@, user@));
                    let v = choose|v: UserModel| decodes_to(text@, v);
                    lemma_same_text_same_user(text@, user@, v);
                }
                Some(user)
            } else {
                None
            }
        },
        None => None,
    }
}

} // verus!
