//! The record codec: the textual wire format of an advertisement list, the
//! value stored under a key of the distributed hash table. The format is a
//! JSON-style array of objects; encoding and decoding are verified against
//! one spec-level grammar, and decoding an encoded list is proved to give the
//! list back.

use vstd::prelude::*;
use crate::data::{FileRequest, FileRequestView, User, UserView};

verus! {

// ---------------------------------------------------------------------------
// The encoding, at the spec level.
// ---------------------------------------------------------------------------

/// Whether `c` must be escaped inside a quoted string: the quote and the
/// backslash.
pub open spec fn needs_escape(c: char) -> bool {
    c == '"' || c == '\\'
}

/// The escaped body of a quoted string: a backslash before every quote or
/// backslash, all other characters verbatim.
pub open spec fn esc(s: Seq<char>) -> Seq<char>
    decreases s.len(),
{
    if s.len() == 0 {
        Seq::empty()
    } else {
        (if needs_escape(s[0]) {
            seq!['\\', s[0]]
        } else {
            seq![s[0]]
        }) + esc(s.skip(1))
    }
}

/// A quoted, escaped string.
pub open spec fn enc_str(s: Seq<char>) -> Seq<char> {
    seq!['"'] + esc(s) + seq!['"']
}

pub open spec fn digit_char(d: nat) -> char {
    if d == 0 {
        '0'
    } else if d == 1 {
        '1'
    } else if d == 2 {
        '2'
    } else if d == 3 {
        '3'
    } else if d == 4 {
        '4'
    } else if d == 5 {
        '5'
    } else if d == 6 {
        '6'
    } else if d == 7 {
        '7'
    } else if d == 8 {
        '8'
    } else {
        '9'
    }
}

pub open spec fn is_digit(c: char) -> bool {
    c == '0' || c == '1' || c == '2' || c == '3' || c == '4' || c == '5' || c == '6' || c == '7'
        || c == '8' || c == '9'
}

pub open spec fn digit_val(c: char) -> nat {
    if c == '0' {
        0
    } else if c == '1' {
        1
    } else if c == '2' {
        2
    } else if c == '3' {
        3
    } else if c == '4' {
        4
    } else if c == '5' {
        5
    } else if c == '6' {
        6
    } else if c == '7' {
        7
    } else if c == '8' {
        8
    } else {
        9
    }
}

/// The decimal digits of `n`, most significant first.
pub open spec fn dec_digits(n: nat) -> Seq<char>
    decreases n,
{
    if n < 10 {
        seq![digit_char(n)]
    } else {
        dec_digits(n / 10).push(digit_char(n % 10))
    }
}

/// The encoded seller object.
pub open spec fn enc_user(u: UserView) -> Seq<char> {
    "{\"id\":"@ + enc_str(u.id) + ",\"name\":"@ + enc_str(u.name) + ",\"ip\":"@ + enc_str(u.ip)
        + ",\"port\":"@ + dec_digits(u.port as nat) + ",\"price\":"@ + dec_digits(u.price as nat)
        + "}"@
}

/// The encoded advertisement object.
pub open spec fn enc_req(r: FileRequestView) -> Seq<char> {
    "{\"user\":"@ + enc_user(r.user) + ",\"file_hash\":"@ + enc_str(r.file_hash)
        + ",\"expiration\":"@ + dec_digits(r.expiration as nat) + "}"@
}

/// The encoded advertisements, comma-separated.
pub open spec fn enc_items(l: Seq<FileRequestView>) -> Seq<char>
    decreases l.len(),
{
    if l.len() == 0 {
        Seq::empty()
    } else if l.len() == 1 {
        enc_req(l[0])
    } else {
        enc_req(l[0]) + seq![','] + enc_items(l.skip(1))
    }
}

/// The encoded advertisement list: the whole record value.
pub open spec fn enc_list(l: Seq<FileRequestView>) -> Seq<char> {
    seq!['['] + enc_items(l) + seq![']']
}

// ---------------------------------------------------------------------------
// The encoder.
// ---------------------------------------------------------------------------

/// Escaping splits over concatenation.
proof fn lemma_esc_concat(a: Seq<char>, b: Seq<char>)
    ensures
        esc(a + b) == esc(a) + esc(b),
    decreases a.len(),
{
    if a.len() == 0 {
        assert(a + b =~= b);
        assert(esc(a) + esc(b) =~= esc(b));
    } else {
        assert((a + b).skip(1) =~= a.skip(1) + b);
        lemma_esc_concat(a.skip(1), b);
        assert(esc(a + b) =~= esc(a) + esc(b));
    }
}

/// Escaping one more character appends its escape.
proof fn lemma_esc_snoc(s: Seq<char>, i: int)
    requires
        0 <= i < s.len(),
    ensures
        esc(s.take(i + 1)) == esc(s.take(i)) + (if needs_escape(s[i]) {
            seq!['\\', s[i]]
        } else {
            seq![s[i]]
        }),
{
    let one = seq![s[i]];
    assert(s.take(i + 1) =~= s.take(i) + one);
    lemma_esc_concat(s.take(i), one);
    assert(one.skip(1) =~= Seq::<char>::empty());
    assert(esc(Seq::<char>::empty()) =~= Seq::<char>::empty());
    assert(esc(one) =~= if needs_escape(s[i]) {
        seq!['\\', s[i]]
    } else {
        seq![s[i]]
    });
}

/// Relies on `String::push`: appends exactly the one character.
#[verifier::external_body]
fn push_char(s: &mut String, c: char)
    ensures
        final(s)@ == old(s)@.push(c),
{
    s.push(c);
}

fn digit_of(d: u64) -> (c: char)
    requires
        d < 10,
    ensures
        c == digit_char(d as nat),
{
    if d == 0 {
        '0'
    } else if d == 1 {
        '1'
    } else if d == 2 {
        '2'
    } else if d == 3 {
        '3'
    } else if d == 4 {
        '4'
    } else if d == 5 {
        '5'
    } else if d == 6 {
        '6'
    } else if d == 7 {
        '7'
    } else if d == 8 {
        '8'
    } else {
        '9'
    }
}

/// Appends the quoted, escaped form of `s`.
#[verifier::loop_isolation(false)]
fn encode_str_into(out: &mut String, s: &str)
    ensures
        final(out)@ == old(out)@ + enc_str(s@),
{
    push_char(out, '"');
    let n = s.unicode_len();
    let mut i: usize = 0;
    while i < n
        invariant
            i <= n,
            n == s@.len(),
            out@ == old(out)@ + seq!['"'] + esc(s@.take(i as int)),
        decreases n - i,
    {
        let c = s.get_char(i);
        if c == '"' || c == '\\' {
            push_char(out, '\\');
            push_char(out, c);
        } else {
            push_char(out, c);
        }
        proof {
            lemma_esc_snoc(s@, i as int);
            assert(out@ =~= old(out)@ + seq!['"'] + esc(s@.take(i + 1)));
        }
        i += 1;
    }
    proof {
        assert(s@.take(s@.len() as int) =~= s@);
    }
    push_char(out, '"');
    proof {
        assert(out@ =~= old(out)@ + enc_str(s@));
    }
}

/// Appends the decimal digits of `n`, most significant first.
fn encode_u64_into(out: &mut String, n: u64)
    ensures
        final(out)@ == old(out)@ + dec_digits(n as nat),
    decreases n,
{
    if n < 10 {
        push_char(out, digit_of(n));
        proof {
            assert(out@ =~= old(out)@ + dec_digits(n as nat));
        }
    } else {
        assert(n / 10 < n) by (nonlinear_arith)
            requires
                n >= 10,
        ;
        encode_u64_into(out, n / 10);
        push_char(out, digit_of(n % 10));
        proof {
            assert((n / 10) as nat == n as nat / 10);
            assert((n % 10) as nat == n as nat % 10);
            assert(out@ =~= old(out)@ + dec_digits(n as nat));
        }
    }
}

/// Appends the encoded seller object.
fn encode_user_into(out: &mut String, u: &User)
    ensures
        final(out)@ == old(out)@ + enc_user(u@),
{
    out.append("{\"id\":");
    encode_str_into(out, u.id.as_str());
    out.append(",\"name\":");
    encode_str_into(out, u.name.as_str());
    out.append(",\"ip\":");
    encode_str_into(out, u.ip.as_str());
    out.append(",\"port\":");
    encode_u64_into(out, u.port as u64);
    out.append(",\"price\":");
    encode_u64_into(out, u.price);
    out.append("}");
    proof {
        assert(out@ =~= old(out)@ + enc_user(u@));
    }
}

/// Appends the encoded advertisement object.
fn encode_req_into(out: &mut String, r: &FileRequest)
    ensures
        final(out)@ == old(out)@ + enc_req(r@),
{
    out.append("{\"user\":");
    encode_user_into(out, &r.user);
    out.append(",\"file_hash\":");
    encode_str_into(out, r.file_hash.as_str());
    out.append(",\"expiration\":");
    encode_u64_into(out, r.expiration);
    out.append("}");
    proof {
        assert(out@ =~= old(out)@ + enc_req(r@));
    }
}

/// A nonempty encoded item sequence splits at any interior comma.
proof fn lemma_enc_items_split(l: Seq<FileRequestView>, k: int)
    requires
        0 < k < l.len(),
    ensures
        enc_items(l) == enc_items(l.take(k)) + seq![','] + enc_items(l.skip(k)),
    decreases k,
{
    if k == 1 {
        assert(l.take(1) =~= seq![l[0]]);
        assert(enc_items(l.take(1)) == enc_req(l[0]));
        assert(enc_items(l) =~= enc_items(l.take(1)) + seq![','] + enc_items(l.skip(1)));
    } else {
        lemma_enc_items_split(l.skip(1), k - 1);
        assert(l.skip(1).take(k - 1) =~= l.take(k).skip(1));
        assert(l.skip(1).skip(k - 1) =~= l.skip(k));
        assert(l.take(k)[0] == l[0]);
        assert(l.take(k).len() == k >= 2);
        assert(enc_items(l.take(k)) == enc_req(l[0]) + seq![','] + enc_items(l.take(k).skip(1)));
        assert(enc_items(l) =~= enc_items(l.take(k)) + seq![','] + enc_items(l.skip(k)));
    }
}

/// Encodes the advertisement list into its record value. Total: every list
/// has an encoding.
#[verifier::loop_isolation(false)]
pub fn encode_requests(reqs: &Vec<FileRequest>) -> (r: String)
    ensures
        r@ == enc_list(reqs.deep_view()),
{
    let ghost l = reqs.deep_view();
    proof {
        assert(forall|k: int| 0 <= k < reqs@.len() ==> #[trigger] l[k] == reqs@[k]@);
    }
    let mut out = String::new();
    push_char(&mut out, '[');
    let mut i: usize = 0;
    while i < reqs.len()
        invariant
            i <= reqs.len(),
            out@ == seq!['['] + (if i == 0 {
                Seq::<char>::empty()
            } else {
                enc_items(l.take(i as int))
            }),
        decreases reqs.len() - i,
    {
        if i > 0 {
            push_char(&mut out, ',');
        }
        encode_req_into(&mut out, &reqs[i]);
        proof {
            if i == 0 {
                assert(l.take(1) =~= seq![l[0]]);
                assert(enc_items(l.take(1)) == enc_req(l[0]));
                assert(out@ =~= seq!['['] + enc_items(l.take(1)));
            } else {
                lemma_enc_items_split(l.take(i + 1), i as int);
                assert(l.take(i + 1).take(i as int) =~= l.take(i as int));
                assert(l.take(i + 1).skip(i as int) =~= seq![l[i as int]]);
                assert(enc_items(seq![l[i as int]]) == enc_req(l[i as int]));
                assert(out@ =~= seq!['['] + enc_items(l.take(i + 1)));
            }
        }
        i += 1;
    }
    push_char(&mut out, ']');
    proof {
        if reqs@.len() == 0 {
            assert(out@ =~= enc_list(l));
        } else {
            assert(l.take(l.len() as int) =~= l);
            assert(out@ =~= enc_list(l));
        }
    }
    out
}

// ---------------------------------------------------------------------------
// The grammar as a spec-level parser: each function consumes a prefix of the
// input and returns the parsed value with the remaining suffix. The decoder
// refines these functions, so the round trip is a statement about them alone.
// ---------------------------------------------------------------------------

/// Consumes the exact literal `lit`.
pub open spec fn p_lit(s: Seq<char>, lit: Seq<char>) -> Option<Seq<char>> {
    if lit.len() <= s.len() && s.take(lit.len() as int) == lit {
        Some(s.skip(lit.len() as int))
    } else {
        None
    }
}

/// Consumes the body of a quoted string up to and including the closing
/// quote, undoing the escapes.
pub open spec fn p_strbody(s: Seq<char>) -> Option<(Seq<char>, Seq<char>)>
    decreases s.len(),
{
    if s.len() == 0 {
        None
    } else if s[0] == '"' {
        Some((Seq::empty(), s.skip(1)))
    } else if s[0] == '\\' {
        if s.len() >= 2 && needs_escape(s[1]) {
            match p_strbody(s.skip(2)) {
                Some((t, r)) => Some((seq![s[1]] + t, r)),
                None => None,
            }
        } else {
            None
        }
    } else {
        match p_strbody(s.skip(1)) {
            Some((t, r)) => Some((seq![s[0]] + t, r)),
            None => None,
        }
    }
}

/// Consumes digits greedily, folding them onto `acc`; a value past the u64
/// range is an error.
pub open spec fn p_digits(s: Seq<char>, acc: nat) -> Option<(nat, Seq<char>)>
    decreases s.len(),
{
    if s.len() > 0 && is_digit(s[0]) {
        if acc * 10 + digit_val(s[0]) <= u64::MAX as nat {
            p_digits(s.skip(1), acc * 10 + digit_val(s[0]))
        } else {
            None
        }
    } else {
        Some((acc, s))
    }
}

/// Consumes an unsigned decimal number of at least one digit.
pub open spec fn p_num(s: Seq<char>) -> Option<(nat, Seq<char>)> {
    if s.len() > 0 && is_digit(s[0]) {
        p_digits(s, 0)
    } else {
        None
    }
}

/// Consumes one encoded seller object.
pub open spec fn p_user(s: Seq<char>) -> Option<(UserView, Seq<char>)> {
    match p_lit(s, "{\"id\":\""@) {
        None => None,
        Some(s1) => match p_strbody(s1) {
            None => None,
            Some((id, s2)) => match p_lit(s2, ",\"name\":\""@) {
                None => None,
                Some(s3) => match p_strbody(s3) {
                    None => None,
                    Some((name, s4)) => match p_lit(s4, ",\"ip\":\""@) {
                        None => None,
                        Some(s5) => match p_strbody(s5) {
                            None => None,
                            Some((ip, s6)) => match p_lit(s6, ",\"port\":"@) {
                                None => None,
                                Some(s7) => match p_num(s7) {
                                    None => None,
                                    Some((port, s8)) => if port <= u32::MAX as nat {
                                        match p_lit(s8, ",\"price\":"@) {
                                            None => None,
                                            Some(s9) => match p_num(s9) {
                                                None => None,
                                                Some((price, s10)) => match p_lit(s10, "}"@) {
                                                    None => None,
                                                    Some(s11) => Some(
                                                        (
                                                            UserView {
                                                                id,
                                                                name,
                                                                ip,
                                                                port: port as u32,
                                                                price: price as u64,
                                                            },
                                                            s11,
                                                        ),
                                                    ),
                                                },
                                            },
                                        }
                                    } else {
                                        None
                                    },
                                },
                            },
                        },
                    },
                },
            },
        },
    }
}

/// Consumes one encoded advertisement object.
pub open spec fn p_req(s: Seq<char>) -> Option<(FileRequestView, Seq<char>)> {
    match p_lit(s, "{\"user\":"@) {
        None => None,
        Some(s1) => match p_user(s1) {
            None => None,
            Some((u, s2)) => match p_lit(s2, ",\"file_hash\":\""@) {
                None => None,
                Some(s3) => match p_strbody(s3) {
                    None => None,
                    Some((fh, s4)) => match p_lit(s4, ",\"expiration\":"@) {
                        None => None,
                        Some(s5) => match p_num(s5) {
                            None => None,
                            Some((exp, s6)) => match p_lit(s6, "}"@) {
                                None => None,
                                Some(s7) => Some(
                                    (
                                        FileRequestView {
                                            user: u,
                                            file_hash: fh,
                                            expiration: exp as u64,
                                        },
                                        s7,
                                    ),
                                ),
                            },
                        },
                    },
                },
            },
        },
    }
}

/// A successful string body consumes at least the closing quote.
proof fn lemma_p_strbody_len(s: Seq<char>)
    ensures
        match p_strbody(s) {
            Some((t, r)) => r.len() < s.len(),
            None => true,
        },
    decreases s.len(),
{
    if s.len() == 0 {
    } else if s[0] == '"' {
    } else if s[0] == '\\' {
        if s.len() >= 2 && needs_escape(s[1]) {
            lemma_p_strbody_len(s.skip(2));
        }
    } else {
        lemma_p_strbody_len(s.skip(1));
    }
}

/// Digit folding never grows the suffix.
proof fn lemma_p_digits_len(s: Seq<char>, acc: nat)
    ensures
        match p_digits(s, acc) {
            Some((v, r)) => r.len() <= s.len(),
            None => true,
        },
    decreases s.len(),
{
    if s.len() > 0 && is_digit(s[0]) {
        if acc * 10 + digit_val(s[0]) <= u64::MAX as nat {
            lemma_p_digits_len(s.skip(1), acc * 10 + digit_val(s[0]));
        }
    }
}

/// A successful seller object consumes at least one character.
proof fn lemma_p_user_len(s: Seq<char>)
    ensures
        match p_user(s) {
            Some((u, r)) => r.len() < s.len(),
            None => true,
        },
{
    if let Some(s1) = p_lit(s, "{\"id\":\""@) {
        lemma_id_lit_len();
        lemma_p_strbody_len(s1);
        if let Some((id, s2)) = p_strbody(s1) {
            lemma_p_strbody_len(s2.skip(",\"name\":\""@.len() as int));
            if let Some(s3) = p_lit(s2, ",\"name\":\""@) {
                lemma_p_strbody_len(s3);
                if let Some((name, s4)) = p_strbody(s3) {
                    if let Some(s5) = p_lit(s4, ",\"ip\":\""@) {
                        lemma_p_strbody_len(s5);
                        if let Some((ip, s6)) = p_strbody(s5) {
                            if let Some(s7) = p_lit(s6, ",\"port\":"@) {
                                lemma_p_digits_len(s7, 0);
                                if let Some((port, s8)) = p_num(s7) {
                                    if let Some(s9) = p_lit(s8, ",\"price\":"@) {
                                        lemma_p_digits_len(s9, 0);
                                    }
                                }
                            }
                        }
                    }
                }
            }
        }
    }
}

/// A successful advertisement object consumes at least one character.
proof fn lemma_p_req_len(s: Seq<char>)
    ensures
        match p_req(s) {
            Some((r, rest)) => rest.len() < s.len(),
            None => true,
        },
{
    if let Some(s1) = p_lit(s, "{\"user\":"@) {
        lemma_user_lit_len();
        lemma_p_user_len(s1);
        if let Some((u, s2)) = p_user(s1) {
            if let Some(s3) = p_lit(s2, ",\"file_hash\":\""@) {
                lemma_p_strbody_len(s3);
                if let Some((fh, s4)) = p_strbody(s3) {
                    if let Some(s5) = p_lit(s4, ",\"expiration\":"@) {
                        lemma_p_digits_len(s5, 0);
                    }
                }
            }
        }
    }
}

proof fn lemma_id_lit_len()
    ensures
        "{\"id\":\""@.len() == 7,
{
    reveal_strlit("{\"id\":\"");
}

proof fn lemma_user_lit_len()
    ensures
        "{\"user\":"@.len() == 8,
{
    reveal_strlit("{\"user\":");
}

/// Consumes the comma-separated encoded advertisements: one or more.
pub open spec fn p_items(s: Seq<char>) -> Option<(Seq<FileRequestView>, Seq<char>)>
    decreases s.len(),
    via p_items_decreases
{
    match p_req(s) {
        None => None,
        Some((r, rest)) => if rest.len() > 0 && rest[0] == ',' {
            match p_items(rest.skip(1)) {
                None => None,
                Some((l, rest2)) => Some((seq![r] + l, rest2)),
            }
        } else {
            Some((seq![r], rest))
        },
    }
}

#[via_fn]
proof fn p_items_decreases(s: Seq<char>) {
    lemma_p_req_len(s);
}

/// Consumes one encoded advertisement list.
pub open spec fn p_list(s: Seq<char>) -> Option<(Seq<FileRequestView>, Seq<char>)> {
    match p_lit(s, seq!['[']) {
        None => None,
        Some(s1) => if s1.len() > 0 && s1[0] == ']' {
            Some((Seq::empty(), s1.skip(1)))
        } else {
            match p_items(s1) {
                None => None,
                Some((l, s2)) => match p_lit(s2, seq![']']) {
                    None => None,
                    Some(s3) => Some((l, s3)),
                },
            }
        },
    }
}

/// The decoded advertisement list of a record value: the whole input must be
/// one encoded list; trailing data is an error.
pub open spec fn sp_decode(s: Seq<char>) -> Option<Seq<FileRequestView>> {
    match p_list(s) {
        Some((l, rest)) => if rest.len() == 0 {
            Some(l)
        } else {
            None
        },
        None => None,
    }
}

// ---------------------------------------------------------------------------
// The round trip: parsing an encoding gives the encoded value back.
// ---------------------------------------------------------------------------

/// A literal parses off the front of itself.
proof fn lemma_p_lit(lit: Seq<char>, rest: Seq<char>)
    ensures
        p_lit(lit + rest, lit) == Some(rest),
{
    assert((lit + rest).take(lit.len() as int) =~= lit);
    assert((lit + rest).skip(lit.len() as int) =~= rest);
}

/// A string body parses its escaped form back, up to the closing quote.
proof fn lemma_p_strbody_esc(x: Seq<char>, rest: Seq<char>)
    ensures
        p_strbody(esc(x) + seq!['"'] + rest) == Some((x, rest)),
    decreases x.len(),
{
    let s = esc(x) + seq!['"'] + rest;
    if x.len() == 0 {
        assert(s[0] == '"');
        assert(s.skip(1) =~= rest);
    } else {
        let c = x[0];
        let tail = x.skip(1);
        lemma_p_strbody_esc(tail, rest);
        if needs_escape(c) {
            assert(s[0] == '\\');
            assert(s[1] == c);
            assert(s.len() >= 2);
            assert(s.skip(2) =~= esc(tail) + seq!['"'] + rest);
            assert(seq![c] + tail =~= x);
        } else {
            assert(s[0] == c);
            assert(s.skip(1) =~= esc(tail) + seq!['"'] + rest);
            assert(seq![c] + tail =~= x);
        }
    }
}

pub open spec fn pow10(k: nat) -> nat
    decreases k,
{
    if k == 0 {
        1
    } else {
        10 * pow10((k - 1) as nat)
    }
}

/// The digit characters decode back to their values.
proof fn lemma_digit_char(d: nat)
    requires
        d < 10,
    ensures
        is_digit(digit_char(d)),
        digit_val(digit_char(d)) == d,
{
}

/// Folding the decimal digits of `n` onto `acc` shifts `acc` past them.
proof fn lemma_p_digits_dec(n: nat, acc: nat, rest: Seq<char>)
    requires
        acc * pow10(dec_digits(n).len()) + n <= u64::MAX as nat,
    ensures
        p_digits(dec_digits(n) + rest, acc) == p_digits(rest, acc * pow10(dec_digits(n).len()) + n),
    decreases n,
{
    let s = dec_digits(n) + rest;
    if n < 10 {
        lemma_digit_char(n);
        assert(dec_digits(n).len() == 1);
        assert(pow10(0) == 1);
        assert(pow10(1) == 10);
        assert(s[0] == digit_char(n));
        assert(acc * 10 + n <= u64::MAX as nat);
        assert(s.skip(1) =~= rest);
    } else {
        let hi = n / 10;
        let lo = n % 10;
        let k1 = dec_digits(hi).len();
        let k = dec_digits(n).len();
        assert(dec_digits(n) == dec_digits(hi).push(digit_char(lo)));
        assert(k == k1 + 1);
        assert(pow10(k) == 10 * pow10(k1));
        assert(hi * 10 + lo == n);
        assert((acc * pow10(k1) + hi) * 10 + lo == acc * (10 * pow10(k1)) + n) by (nonlinear_arith)
            requires
                hi * 10 + lo == n,
        ;
        assert(acc * pow10(k1) + hi <= u64::MAX as nat) by (nonlinear_arith)
            requires
                (acc * pow10(k1) + hi) * 10 + lo == acc * (10 * pow10(k1)) + n,
                acc * (10 * pow10(k1)) + n <= u64::MAX as nat,
                lo < 10,
        ;
        assert(s =~= dec_digits(hi) + (seq![digit_char(lo)] + rest));
        lemma_p_digits_dec(hi, acc, seq![digit_char(lo)] + rest);
        let acc2 = acc * pow10(k1) + hi;
        let s2 = seq![digit_char(lo)] + rest;
        lemma_digit_char(lo);
        assert(s2[0] == digit_char(lo));
        assert(acc2 * 10 + lo == acc * pow10(k) + n);
        assert(s2.skip(1) =~= rest);
        assert(p_digits(s2, acc2) == p_digits(rest, acc * pow10(k) + n));
    }
}

/// The first character of a decimal encoding is a digit.
proof fn lemma_dec_digits_first(n: nat)
    ensures
        dec_digits(n).len() >= 1,
        is_digit(dec_digits(n)[0]),
    decreases n,
{
    if n < 10 {
        lemma_digit_char(n);
    } else {
        lemma_dec_digits_first(n / 10);
    }
}

/// A decimal number parses its own digits back, up to a non-digit.
proof fn lemma_p_num_dec(n: nat, rest: Seq<char>)
    requires
        n <= u64::MAX as nat,
        rest.len() == 0 || !is_digit(rest[0]),
    ensures
        p_num(dec_digits(n) + rest) == Some((n, rest)),
{
    let s = dec_digits(n) + rest;
    lemma_dec_digits_first(n);
    assert(s[0] == dec_digits(n)[0]);
    assert(0 * pow10(dec_digits(n).len()) + n == n) by (nonlinear_arith);
    lemma_p_digits_dec(n, 0, rest);
    assert(p_digits(s, 0) == p_digits(rest, n));
}

/// A seller object parses its encoding back.
proof fn lemma_p_user_enc(u: UserView, rest: Seq<char>)
    ensures
        p_user(enc_user(u) + rest) == Some((u, rest)),
{
    reveal_strlit("{\"id\":");
    reveal_strlit("{\"id\":\"");
    reveal_strlit(",\"name\":");
    reveal_strlit(",\"name\":\"");
    reveal_strlit(",\"ip\":");
    reveal_strlit(",\"ip\":\"");
    reveal_strlit(",\"port\":");
    reveal_strlit(",\"price\":");
    reveal_strlit("}");
    let q = seq!['"'];
    let u10 = "}"@ + rest;
    let u9 = dec_digits(u.price as nat) + u10;
    let u8 = ",\"price\":"@ + u9;
    let u7 = dec_digits(u.port as nat) + u8;
    let u6 = ",\"port\":"@ + u7;
    let u5 = esc(u.ip) + q + u6;
    let u4 = ",\"ip\":\""@ + u5;
    let u3 = esc(u.name) + q + u4;
    let u2 = ",\"name\":\""@ + u3;
    let u1 = esc(u.id) + q + u2;
    assert(enc_user(u) + rest =~= "{\"id\":\""@ + u1);
    lemma_p_lit("{\"id\":\""@, u1);
    lemma_p_strbody_esc(u.id, u2);
    lemma_p_lit(",\"name\":\""@, u3);
    lemma_p_strbody_esc(u.name, u4);
    lemma_p_lit(",\"ip\":\""@, u5);
    lemma_p_strbody_esc(u.ip, u6);
    lemma_p_lit(",\"port\":"@, u7);
    assert(u8.len() > 0 && u8[0] == ',');
    lemma_p_num_dec(u.port as nat, u8);
    lemma_p_lit(",\"price\":"@, u9);
    assert(u10.len() > 0 && u10[0] == '}');
    lemma_p_num_dec(u.price as nat, u10);
    lemma_p_lit("}"@, rest);
    assert(u10 == "}"@ + rest);
    assert(p_user(enc_user(u) + rest) == Some(
        (UserView { id: u.id, name: u.name, ip: u.ip, port: u.port, price: u.price }, rest),
    ));
    assert(UserView { id: u.id, name: u.name, ip: u.ip, port: u.port, price: u.price } == u);
}

/// An advertisement object parses its encoding back.
proof fn lemma_p_req_enc(r: FileRequestView, rest: Seq<char>)
    ensures
        p_req(enc_req(r) + rest) == Some((r, rest)),
{
    reveal_strlit("{\"user\":");
    reveal_strlit(",\"file_hash\":");
    reveal_strlit(",\"file_hash\":\"");
    reveal_strlit(",\"expiration\":");
    reveal_strlit("}");
    let q = seq!['"'];
    let u6 = "}"@ + rest;
    let u5 = dec_digits(r.expiration as nat) + u6;
    let u4 = ",\"expiration\":"@ + u5;
    let u3 = esc(r.file_hash) + q + u4;
    let u2 = ",\"file_hash\":\""@ + u3;
    let u1 = enc_user(r.user) + u2;
    assert(enc_req(r) + rest =~= "{\"user\":"@ + u1);
    lemma_p_lit("{\"user\":"@, u1);
    lemma_p_user_enc(r.user, u2);
    lemma_p_lit(",\"file_hash\":\""@, u3);
    lemma_p_strbody_esc(r.file_hash, u4);
    lemma_p_lit(",\"expiration\":"@, u5);
    assert(u6.len() > 0 && u6[0] == '}');
    lemma_p_num_dec(r.expiration as nat, u6);
    lemma_p_lit("}"@, rest);
    assert(p_req(enc_req(r) + rest) == Some(
        (
            FileRequestView {
                user: r.user,
                file_hash: r.file_hash,
                expiration: r.expiration,
            },
            rest,
        ),
    ));
    assert(FileRequestView { user: r.user, file_hash: r.file_hash, expiration: r.expiration }
        == r);
}

/// A nonempty item sequence parses its encoding back, up to a suffix that
/// does not continue the list.
#[verifier::rlimit(50)]
proof fn lemma_p_items_enc(l: Seq<FileRequestView>, rest: Seq<char>)
    requires
        l.len() > 0,
        rest.len() == 0 || rest[0] != ',',
    ensures
        p_items(enc_items(l) + rest) == Some((l, rest)),
    decreases l.len(),
{
    if l.len() == 1 {
        lemma_p_req_enc(l[0], rest);
        assert(enc_items(l) + rest =~= enc_req(l[0]) + rest);
        assert(seq![l[0]] =~= l);
    } else {
        let tail = l.skip(1);
        let r2 = seq![','] + (enc_items(tail) + rest);
        assert(enc_items(l) + rest =~= enc_req(l[0]) + r2);
        lemma_p_req_enc(l[0], r2);
        assert(r2[0] == ',');
        assert(r2.skip(1) =~= enc_items(tail) + rest);
        lemma_p_items_enc(tail, rest);
        assert(seq![l[0]] + tail =~= l);
    }
}

/// The first character of an encoded advertisement object.
proof fn lemma_enc_req_first(r: FileRequestView)
    ensures
        enc_req(r).len() > 0,
        enc_req(r)[0] == '{',
{
    reveal_strlit("{\"user\":");
}

// ---------------------------------------------------------------------------
// The decoder: a recursive-descent parser refining the spec-level one.
// ---------------------------------------------------------------------------

/// Consumes the literal `lit` at position `i`, returning the position after
/// it.
#[verifier::loop_isolation(false)]
fn expect_lit(s: &str, i: usize, lit: &str) -> (r: Option<usize>)
    requires
        i <= s@.len(),
    ensures
        match r {
            Some(j) => i <= j <= s@.len() && p_lit(s@.skip(i as int), lit@) == Some(
                s@.skip(j as int),
            ),
            None => p_lit(s@.skip(i as int), lit@) is None,
        },
{
    let n = s.unicode_len();
    let m = lit.unicode_len();
    if m > n - i {
        return None;
    }
    let mut k: usize = 0;
    while k < m
        invariant
            k <= m,
            forall|w: int| 0 <= w < k ==> s@[i + w] == lit@[w],
        decreases m - k,
    {
        if !(s.get_char(i + k) == lit.get_char(k)) {
            proof {
                let suf = s@.skip(i as int);
                assert(suf.take(lit@.len() as int)[k as int] == s@[i + k]);
                assert(suf.take(lit@.len() as int) != lit@);
            }
            return None;
        }
        k += 1;
    }
    proof {
        let suf = s@.skip(i as int);
        assert(suf.take(lit@.len() as int) =~= lit@);
        assert(suf.skip(lit@.len() as int) =~= s@.skip(i + m));
    }
    Some(i + m)
}

/// Consumes a string body at position `i`: everything up to the closing
/// quote, with the escapes undone.
#[verifier::loop_isolation(false)]
fn parse_strbody(s: &str, i: usize) -> (r: Option<(String, usize)>)
    requires
        i <= s@.len(),
    ensures
        match r {
            Some((t, j)) => i <= j <= s@.len() && p_strbody(s@.skip(i as int)) == Some(
                (t@, s@.skip(j as int)),
            ),
            None => p_strbody(s@.skip(i as int)) is None,
        },
{
    let n = s.unicode_len();
    let mut out = String::new();
    let mut j: usize = i;
    proof {
        if let Some((t, r)) = p_strbody(s@.skip(i as int)) {
            assert(Seq::<char>::empty() + t =~= t);
        }
    }
    loop
        invariant
            i <= j <= n,
            n == s@.len(),
            match p_strbody(s@.skip(j as int)) {
                Some((t, r)) => p_strbody(s@.skip(i as int)) == Some((out@ + t, r)),
                None => p_strbody(s@.skip(i as int)) is None,
            },
        decreases n - j,
    {
        if j >= n {
            return None;
        }
        let c = s.get_char(j);
        proof {
            assert(s@.skip(j as int)[0] == c);
        }
        if c == '"' {
            proof {
                assert(s@.skip(j as int).skip(1) =~= s@.skip(j + 1));
                assert(out@ + Seq::<char>::empty() =~= out@);
            }
            return Some((out, j + 1));
        } else if c == '\\' {
            if j + 1 >= n {
                return None;
            }
            let c2 = s.get_char(j + 1);
            proof {
                assert(s@.skip(j as int)[1] == c2);
            }
            if c2 == '"' || c2 == '\\' {
                let ghost out0 = out@;
                push_char(&mut out, c2);
                proof {
                    assert(s@.skip(j as int).skip(2) =~= s@.skip(j + 2));
                    if let Some((t2, r2)) = p_strbody(s@.skip(j + 2)) {
                        assert(out0 + (seq![c2] + t2) =~= out@ + t2);
                    }
                }
                j += 2;
            } else {
                return None;
            }
        } else {
            let ghost out0 = out@;
            push_char(&mut out, c);
            proof {
                assert(s@.skip(j as int).skip(1) =~= s@.skip(j + 1));
                if let Some((t2, r2)) = p_strbody(s@.skip(j + 1)) {
                    assert(out0 + (seq![c] + t2) =~= out@ + t2);
                }
            }
            j += 1;
        }
    }
}

/// The decimal value of a digit character.
fn digit_value_of(c: char) -> (r: Option<u64>)
    ensures
        r is Some <==> is_digit(c),
        r is Some ==> r->0 as nat == digit_val(c),
{
    if c == '0' {
        Some(0)
    } else if c == '1' {
        Some(1)
    } else if c == '2' {
        Some(2)
    } else if c == '3' {
        Some(3)
    } else if c == '4' {
        Some(4)
    } else if c == '5' {
        Some(5)
    } else if c == '6' {
        Some(6)
    } else if c == '7' {
        Some(7)
    } else if c == '8' {
        Some(8)
    } else if c == '9' {
        Some(9)
    } else {
        None
    }
}

/// Consumes an unsigned decimal number at position `i`.
#[verifier::loop_isolation(false)]
fn parse_num(s: &str, i: usize) -> (r: Option<(u64, usize)>)
    requires
        i <= s@.len(),
    ensures
        match r {
            Some((v, j)) => i <= j <= s@.len() && p_num(s@.skip(i as int)) == Some(
                (v as nat, s@.skip(j as int)),
            ),
            None => p_num(s@.skip(i as int)) is None,
        },
{
    let n = s.unicode_len();
    if i >= n {
        return None;
    }
    let c0 = s.get_char(i);
    proof {
        assert(s@.skip(i as int)[0] == c0);
    }
    if digit_value_of(c0).is_none() {
        return None;
    }
    let mut acc: u64 = 0;
    let mut j: usize = i;
    loop
        invariant
            i <= j <= n,
            n == s@.len(),
            p_num(s@.skip(i as int)) == p_digits(s@.skip(j as int), acc as nat),
        decreases n - j,
    {
        if j >= n {
            return Some((acc, j));
        }
        let c = s.get_char(j);
        proof {
            assert(s@.skip(j as int)[0] == c);
        }
        match digit_value_of(c) {
            None => {
                return Some((acc, j));
            },
            Some(d) => {
                let step = match acc.checked_mul(10) {
                    Some(m) => m.checked_add(d),
                    None => None,
                };
                match step {
                    None => {
                        proof {
                            assert(acc as nat * 10 + digit_val(c) > u64::MAX as nat);
                        }
                        return None;
                    },
                    Some(acc2) => {
                        proof {
                            assert(acc2 as nat == acc as nat * 10 + digit_val(c));
                            assert(s@.skip(j as int).skip(1) =~= s@.skip(j + 1));
                        }
                        acc = acc2;
                        j += 1;
                    },
                }
            },
        }
    }
}

/// Consumes one encoded seller object at position `i`.
fn parse_user(s: &str, i: usize) -> (r: Option<(User, usize)>)
    requires
        i <= s@.len(),
    ensures
        match r {
            Some((u, j)) => i <= j <= s@.len() && p_user(s@.skip(i as int)) == Some(
                (u@, s@.skip(j as int)),
            ),
            None => p_user(s@.skip(i as int)) is None,
        },
{
    let s1 = match expect_lit(s, i, "{\"id\":\"") {
        Some(j) => j,
        None => {
            return None;
        },
    };
    let (id, s2) = match parse_strbody(s, s1) {
        Some(p) => p,
        None => {
            return None;
        },
    };
    let s3 = match expect_lit(s, s2, ",\"name\":\"") {
        Some(j) => j,
        None => {
            return None;
        },
    };
    let (name, s4) = match parse_strbody(s, s3) {
        Some(p) => p,
        None => {
            return None;
        },
    };
    let s5 = match expect_lit(s, s4, ",\"ip\":\"") {
        Some(j) => j,
        None => {
            return None;
        },
    };
    let (ip, s6) = match parse_strbody(s, s5) {
        Some(p) => p,
        None => {
            return None;
        },
    };
    let s7 = match expect_lit(s, s6, ",\"port\":") {
        Some(j) => j,
        None => {
            return None;
        },
    };
    let (port, s8) = match parse_num(s, s7) {
        Some(p) => p,
        None => {
            return None;
        },
    };
    if port > u32::MAX as u64 {
        return None;
    }
    let s9 = match expect_lit(s, s8, ",\"price\":") {
        Some(j) => j,
        None => {
            return None;
        },
    };
    let (price, s10) = match parse_num(s, s9) {
        Some(p) => p,
        None => {
            return None;
        },
    };
    let s11 = match expect_lit(s, s10, "}") {
        Some(j) => j,
        None => {
            return None;
        },
    };
    Some((User { id, name, ip, port: port as u32, price }, s11))
}

/// Consumes one encoded advertisement object at position `i`.
fn parse_req(s: &str, i: usize) -> (r: Option<(FileRequest, usize)>)
    requires
        i <= s@.len(),
    ensures
        match r {
            Some((fr, j)) => i <= j <= s@.len() && p_req(s@.skip(i as int)) == Some(
                (fr@, s@.skip(j as int)),
            ),
            None => p_req(s@.skip(i as int)) is None,
        },
{
    let s1 = match expect_lit(s, i, "{\"user\":") {
        Some(j) => j,
        None => {
            return None;
        },
    };
    let (user, s2) = match parse_user(s, s1) {
        Some(p) => p,
        None => {
            return None;
        },
    };
    let s3 = match expect_lit(s, s2, ",\"file_hash\":\"") {
        Some(j) => j,
        None => {
            return None;
        },
    };
    let (file_hash, s4) = match parse_strbody(s, s3) {
        Some(p) => p,
        None => {
            return None;
        },
    };
    let s5 = match expect_lit(s, s4, ",\"expiration\":") {
        Some(j) => j,
        None => {
            return None;
        },
    };
    let (expiration, s6) = match parse_num(s, s5) {
        Some(p) => p,
        None => {
            return None;
        },
    };
    let s7 = match expect_lit(s, s6, "}") {
        Some(j) => j,
        None => {
            return None;
        },
    };
    Some((FileRequest { user, file_hash, expiration }, s7))
}

/// Consumes the comma-separated encoded advertisements at position `i`.
fn parse_items(s: &str, i: usize) -> (r: Option<(Vec<FileRequest>, usize)>)
    requires
        i <= s@.len(),
    ensures
        match r {
            Some((v, j)) => i <= j <= s@.len() && p_items(s@.skip(i as int)) == Some(
                (v.deep_view(), s@.skip(j as int)),
            ),
            None => p_items(s@.skip(i as int)) is None,
        },
    decreases s@.len() - i,
{
    let n = s.unicode_len();
    let (req, j) = match parse_req(s, i) {
        Some(p) => p,
        None => {
            return None;
        },
    };
    if j < n && s.get_char(j) == ',' {
        proof {
            assert(s@.skip(j as int)[0] == ',');
            assert(s@.skip(j as int).skip(1) =~= s@.skip(j + 1));
        }
        let (mut v, j2) = match parse_items(s, j + 1) {
            Some(p) => p,
            None => {
                return None;
            },
        };
        let ghost tail = v.deep_view();
        v.insert(0, req);
        proof {
            assert(v.deep_view() =~= seq![req@] + tail);
        }
        Some((v, j2))
    } else {
        proof {
            if j < n {
                assert(s@.skip(j as int)[0] != ',');
            }
        }
        let mut single: Vec<FileRequest> = Vec::new();
        single.push(req);
        proof {
            assert(single.deep_view() =~= seq![req@]);
        }
        Some((single, j))
    }
}

/// Decodes a record value. The whole input must be one encoded advertisement
/// list; anything else, trailing data included, is rejected with `None`.
pub fn decode_requests(s: &str) -> (r: Option<Vec<FileRequest>>)
    ensures
        match r {
            Some(v) => sp_decode(s@) == Some(v.deep_view()),
            None => sp_decode(s@) is None,
        },
{
    let n = s.unicode_len();
    proof {
        assert(s@.skip(0) =~= s@);
        reveal_strlit("[");
        reveal_strlit("]");
        assert("["@ =~= seq!['[']);
        assert("]"@ =~= seq![']']);
    }
    let j = match expect_lit(s, 0, "[") {
        Some(j) => j,
        None => {
            return None;
        },
    };
    if j >= n {
        proof {
            lemma_user_lit_len();
            assert(s@.skip(j as int).len() == 0);
        }
        return None;
    }
    if s.get_char(j) == ']' {
        proof {
            assert(s@.skip(j as int)[0] == ']');
            assert(s@.skip(j as int).skip(1) =~= s@.skip(j + 1));
        }
        if j + 1 == n {
            let empty: Vec<FileRequest> = Vec::new();
            proof {
                assert(empty.deep_view() =~= Seq::<FileRequestView>::empty());
            }
            return Some(empty);
        } else {
            return None;
        }
    }
    proof {
        assert(s@.skip(j as int)[0] != ']');
    }
    let (v, j2) = match parse_items(s, j) {
        Some(p) => p,
        None => {
            return None;
        },
    };
    let j3 = match expect_lit(s, j2, "]") {
        Some(p) => p,
        None => {
            return None;
        },
    };
    if j3 == n {
        Some(v)
    } else {
        None
    }
}

/// The round trip: decoding an encoded advertisement list gives the list
/// back, for every list.
pub proof fn lemma_decode_encode(l: Seq<FileRequestView>)
    ensures
        sp_decode(enc_list(l)) == Some(l),
{
    let s = enc_list(l);
    let inner = enc_items(l) + seq![']'];
    assert(s =~= seq!['['] + inner);
    lemma_p_lit(seq!['['], inner);
    if l.len() == 0 {
        assert(inner[0] == ']');
        assert(inner.skip(1) =~= Seq::<char>::empty());
        assert(enc_items(l) =~= Seq::<char>::empty());
    } else {
        lemma_enc_req_first(l[0]);
        assert(inner[0] == enc_req(l[0])[0]);
        assert(inner[0] != ']');
        let tail_rest = seq![']'];
        assert(inner =~= enc_items(l) + tail_rest);
        lemma_p_items_enc(l, tail_rest);
        lemma_p_lit(seq![']'], Seq::<char>::empty());
        assert(tail_rest =~= seq![']'] + Seq::<char>::empty());
    }
}

} // verus!

