//! The record format of the log segments.
//!
//! A record is a compact JSON object, written without whitespace:
//! `{"Set":{"key":"k","value":"v"}}`, `{"Get":{"key":"k"}}` or
//! `{"Remove":{"key":"k"}}`. Records are concatenated with nothing between
//! them, so a parser reads one record and reports where the next one starts.
use vstd::prelude::*;
use vstd::string::StrSliceExecFns;
use vstd::utf8::*;

use crate::command::Command;

verus! {

broadcast use vstd::utf8::group_utf8_lib;

/// What a record says, with its strings as characters.
pub enum Record {
    Put { key: Seq<char>, value: Seq<char> },
    Get { key: Seq<char> },
    Remove { key: Seq<char> },
}

/// `{"Set":{"key":"`
pub open spec fn set_head() -> Seq<u8> {
    seq![123u8, 34, 83, 101, 116, 34, 58, 123, 34, 107, 101, 121, 34, 58, 34]
}

/// `{"Get":{"key":"`
pub open spec fn get_head() -> Seq<u8> {
    seq![123u8, 34, 71, 101, 116, 34, 58, 123, 34, 107, 101, 121, 34, 58, 34]
}

/// `{"Remove":{"key":"`
pub open spec fn remove_head() -> Seq<u8> {
    seq![123u8, 34, 82, 101, 109, 111, 118, 101, 34, 58, 123, 34, 107, 101, 121, 34, 58, 34]
}

/// `,"value":"`, which follows the closing quote of the key.
pub open spec fn value_sep() -> Seq<u8> {
    seq![44u8, 34, 118, 97, 108, 117, 101, 34, 58, 34]
}

/// `}}`
pub open spec fn tail() -> Seq<u8> {
    seq![125u8, 125]
}

pub open spec fn hex_digit(n: u8) -> u8 {
    if n < 10 {
        (48 + n) as u8
    } else {
        (87 + n) as u8
    }
}

/// How one byte of a string is written between the quotes.
pub open spec fn escape_byte(b: u8) -> Seq<u8> {
    if b == 34 {
        seq![92u8, 34]
    } else if b == 92 {
        seq![92u8, 92]
    } else if b < 32 {
        seq![92u8, 117, 48, 48, hex_digit(b / 16), hex_digit(b % 16)]
    } else {
        seq![b]
    }
}

/// The body of a JSON string holding the bytes `s`, without the quotes.
pub open spec fn escape(s: Seq<u8>) -> Seq<u8>
    decreases s.len(),
{
    if s.len() == 0 {
        Seq::empty()
    } else {
        escape_byte(s[0]) + escape(s.drop_first())
    }
}

/// A string's body followed by its closing quote.
pub open spec fn quoted_tail(s: Seq<char>) -> Seq<u8> {
    escape(encode_utf8(s)) + seq![34u8]
}

/// The bytes that encode a record.
pub open spec fn encode(r: Record) -> Seq<u8> {
    match r {
        Record::Put { key, value } => set_head() + quoted_tail(key) + value_sep() + quoted_tail(value)
            + tail(),
        Record::Get { key } => get_head() + quoted_tail(key) + tail(),
        Record::Remove { key } => remove_head() + quoted_tail(key) + tail(),
    }
}

pub open spec fn hex_val(c: u8) -> Option<u8> {
    if 48 <= c <= 57 {
        Some((c - 48) as u8)
    } else if 97 <= c <= 102 {
        Some((c - 87) as u8)
    } else if 65 <= c <= 70 {
        Some((c - 55) as u8)
    } else {
        None
    }
}

/// Bytes taken by the escape sequence whose backslash is at `i`.
pub open spec fn escape_len(buf: Seq<u8>, i: int) -> int {
    if i + 1 < buf.len() && buf[i + 1] == 117 {
        6
    } else {
        2
    }
}

/// The byte that the escape sequence whose backslash is at `i` stands for.
pub open spec fn unescape(buf: Seq<u8>, i: int) -> Option<u8> {
    if i + 1 >= buf.len() {
        None
    } else {
        let c = buf[i + 1];
        if c == 34 || c == 92 || c == 47 {
            Some(c)
        } else if c == 98 {
            Some(8u8)
        } else if c == 102 {
            Some(12u8)
        } else if c == 110 {
            Some(10u8)
        } else if c == 114 {
            Some(13u8)
        } else if c == 116 {
            Some(9u8)
        } else if c == 117 && buf.len() - i > 5 && buf[i + 2] == 48 && buf[i + 3] == 48
            && hex_val(buf[i + 4]) is Some && hex_val(buf[i + 4])->0 < 8 && hex_val(
            buf[i + 5],
        ) is Some {
            Some((hex_val(buf[i + 4])->0 * 16 + hex_val(buf[i + 5])->0) as u8)
        } else {
            None
        }
    }
}

/// Reads a string body starting at `i` up to and including its closing
/// quote: the bytes it stands for, and the offset after the quote.
pub open spec fn scan_str(buf: Seq<u8>, i: int) -> Option<(Seq<u8>, int)>
    decreases buf.len() - i,
{
    if i < 0 || i >= buf.len() {
        None
    } else if buf[i] == 34 {
        Some((Seq::empty(), i + 1))
    } else if buf[i] == 92 {
        match unescape(buf, i) {
            None => None,
            Some(c) => prepend(seq![c], scan_str(buf, i + escape_len(buf, i))),
        }
    } else if buf[i] < 32 {
        None
    } else {
        prepend(seq![buf[i]], scan_str(buf, i + 1))
    }
}

pub open spec fn prepend(p: Seq<u8>, o: Option<(Seq<u8>, int)>) -> Option<(Seq<u8>, int)> {
    match o {
        None => None,
        Some((r, e)) => Some((p + r, e)),
    }
}

pub open spec fn scan_end(buf: Seq<u8>, i: int) -> int {
    match scan_str(buf, i) {
        Some((_, e)) => e,
        None => i,
    }
}

pub open spec fn scan_bytes(buf: Seq<u8>, i: int) -> Seq<u8> {
    match scan_str(buf, i) {
        Some((b, _)) => b,
        None => Seq::empty(),
    }
}

pub open spec fn has_at(buf: Seq<u8>, i: int, lit: Seq<u8>) -> bool {
    0 <= i && i + lit.len() <= buf.len() && buf.subrange(i, i + lit.len()) == lit
}

/// A string at `i` whose bytes are UTF-8, as characters.
pub open spec fn scan_text(buf: Seq<u8>, i: int) -> Option<(Seq<char>, int)> {
    match scan_str(buf, i) {
        Some((b, e)) => if valid_utf8(b) {
            Some((decode_utf8(b), e))
        } else {
            None
        },
        None => None,
    }
}

/// A key record (`Get` or `Remove`) whose head has already been matched:
/// the key starting at `i`, then the closing braces.
pub open spec fn parse_key_tail(buf: Seq<u8>, i: int) -> Option<(Seq<char>, int)> {
    match scan_text(buf, i) {
        Some((k, e)) => if has_at(buf, e, tail()) {
            Some((k, e + 2))
        } else {
            None
        },
        None => None,
    }
}

/// The record that starts at `i`, and the offset right after it.
pub open spec fn parse(buf: Seq<u8>, i: int) -> Option<(Record, int)> {
    if has_at(buf, i, set_head()) {
        match scan_text(buf, i + 15) {
            Some((k, e)) => if has_at(buf, e, value_sep()) {
                match scan_text(buf, e + 10) {
                    Some((v, e2)) => if has_at(buf, e2, tail()) {
                        Some((Record::Put { key: k, value: v }, e2 + 2))
                    } else {
                        None
                    },
                    None => None,
                }
            } else {
                None
            },
            None => None,
        }
    } else if has_at(buf, i, get_head()) {
        match parse_key_tail(buf, i + 15) {
            Some((k, e)) => Some((Record::Get { key: k }, e)),
            None => None,
        }
    } else if has_at(buf, i, remove_head()) {
        match parse_key_tail(buf, i + 18) {
            Some((k, e)) => Some((Record::Remove { key: k }, e)),
            None => None,
        }
    } else {
        None
    }
}

pub open spec fn parse_end(buf: Seq<u8>, i: int) -> int {
    match parse(buf, i) {
        Some((_, e)) => e,
        None => i,
    }
}

pub open spec fn parse_rec(buf: Seq<u8>, i: int) -> Record {
    match parse(buf, i) {
        Some((r, _)) => r,
        None => Record::Get { key: Seq::empty() },
    }
}

/// Two byte strings agree on `n` bytes starting at `i` and `j`.
pub open spec fn same_window(a: Seq<u8>, i: int, b: Seq<u8>, j: int, n: int) -> bool {
    0 <= i && 0 <= j && 0 <= n && i + n <= a.len() && j + n <= b.len() && a.subrange(i, i + n)
        == b.subrange(j, j + n)
}

// ---------------------------------------------------------------------
// Lemmas
proof fn lemma_escape_concat(a: Seq<u8>, b: Seq<u8>)
    ensures
        escape(a + b) == escape(a) + escape(b),
    decreases a.len(),
{
    if a.len() == 0 {
        assert(a + b =~= b);
        assert(escape(a) + escape(b) =~= escape(b));
    } else {
        assert((a + b).drop_first() =~= a.drop_first() + b);
        lemma_escape_concat(a.drop_first(), b);
        assert(escape(a + b) =~= escape(a) + escape(b));
    }
}

proof fn lemma_window_byte(a: Seq<u8>, i: int, b: Seq<u8>, j: int, n: int, k: int)
    requires
        same_window(a, i, b, j, n),
        0 <= k < n,
    ensures
        a[i + k] == b[j + k],
{
    assert(a.subrange(i, i + n)[k] == b.subrange(j, j + n)[k]);
}

proof fn lemma_window_shrink(a: Seq<u8>, i: int, b: Seq<u8>, j: int, n: int, d: int, m: int)
    requires
        same_window(a, i, b, j, n),
        0 <= d,
        0 <= m,
        d + m <= n,
    ensures
        same_window(a, i + d, b, j + d, m),
{
    assert(a.subrange(i + d, i + d + m) =~= a.subrange(i, i + n).subrange(d, d + m));
    assert(b.subrange(j + d, j + d + m) =~= b.subrange(j, j + n).subrange(d, d + m));
}

/// A string body is read the same wherever its bytes stand.
proof fn lemma_scan_local(a: Seq<u8>, i: int, b: Seq<u8>, j: int)
    requires
        scan_str(a, i) is Some,
        same_window(a, i, b, j, scan_end(a, i) - i),
    ensures
        scan_str(b, j) == (Some((scan_bytes(a, i), j + scan_end(a, i) - i))),
        i < scan_end(a, i) <= a.len(),
    decreases a.len() - i,
{
    let n = scan_end(a, i) - i;
    lemma_scan_bounds(a, i);
    lemma_window_byte(a, i, b, j, n, 0);
    if a[i] == 34 {
    } else if a[i] == 92 {
        let l = escape_len(a, i);
        lemma_scan_bounds(a, i + l);
        assert(n >= l);
        lemma_window_byte(a, i, b, j, n, 1);
        if l == 6 {
            lemma_window_byte(a, i, b, j, n, 2);
            lemma_window_byte(a, i, b, j, n, 3);
            lemma_window_byte(a, i, b, j, n, 4);
            lemma_window_byte(a, i, b, j, n, 5);
        }
        assert(escape_len(b, j) == l);
        assert(unescape(b, j) == unescape(a, i));
        lemma_window_shrink(a, i, b, j, n, l, n - l);
        lemma_scan_local(a, i + l, b, j + l);
    } else {
        lemma_scan_bounds(a, i + 1);
        lemma_window_shrink(a, i, b, j, n, 1, n - 1);
        lemma_scan_local(a, i + 1, b, j + 1);
    }
}

proof fn lemma_scan_bounds(a: Seq<u8>, i: int)
    ensures
        scan_str(a, i) is Some ==> i < scan_end(a, i) <= a.len(),
        scan_str(a, i) is Some && a[i] == 92 ==> i + escape_len(a, i) < scan_end(a, i),
        scan_str(a, i) is Some && a[i] != 92 && a[i] != 34 ==> i + 1 < scan_end(a, i),
    decreases a.len() - i,
{
    if scan_str(a, i) is Some {
        if a[i] == 92 {
            lemma_scan_bounds(a, i + escape_len(a, i));
        } else if a[i] != 34 {
            lemma_scan_bounds(a, i + 1);
        }
    }
}

/// An escaped body followed by a quote reads back as the bytes escaped.
proof fn lemma_scan_escape(s: Seq<u8>, buf: Seq<u8>, i: int)
    requires
        has_at(buf, i, escape(s) + seq![34u8]),
    ensures
        scan_str(buf, i) == Some((s, i + escape(s).len() + 1)),
    decreases s.len(),
{
    let w = escape(s) + seq![34u8];
    assert(buf[i] == w[0]);
    if s.len() == 0 {
        assert(w =~= seq![34u8]);
    } else {
        let e = escape_byte(s[0]);
        let rest = escape(s.drop_first()) + seq![34u8];
        assert(w =~= e + rest);
        assert forall|k: int| 0 <= k < e.len() implies buf[i + k] == e[k] by {
            assert(buf.subrange(i, i + w.len())[k] == w[k]);
        }
        assert(buf.subrange(i + e.len(), i + e.len() + rest.len()) =~= buf.subrange(
            i,
            i + w.len(),
        ).subrange(e.len() as int, w.len() as int));
        assert(w.subrange(e.len() as int, w.len() as int) =~= rest);
        lemma_scan_escape(s.drop_first(), buf, i + e.len());
        let b = s[0];
        if b == 34 || b == 92 {
            assert(unescape(buf, i) == Some(b));
        } else if b < 32 {
            assert(hex_val(hex_digit(b / 16)) == Some((b / 16) as u8));
            assert(hex_val(hex_digit(b % 16)) == Some((b % 16) as u8));
            assert(unescape(buf, i) == Some(b));
        }
        assert(seq![b] + s.drop_first() =~= s);
    }
}

/// Parsing looks only at the bytes of the record itself.
pub proof fn lemma_parse_local(a: Seq<u8>, i: int, b: Seq<u8>, j: int)
    requires
        parse(a, i) is Some,
        same_window(a, i, b, j, parse_end(a, i) - i),
    ensures
        parse(b, j) == (Some((parse_rec(a, i), j + parse_end(a, i) - i))),
        i < parse_end(a, i) <= a.len(),
{
    let n = parse_end(a, i) - i;
    if has_at(a, i, set_head()) {
        let (kb, e) = scan_str(a, i + 15)->0;
        lemma_scan_bounds(a, i + 15);
        let (vb, e2) = scan_str(a, e + 10)->0;
        lemma_scan_bounds(a, e + 10);
        lemma_window_shrink(a, i, b, j, n, 0, 15);
        lemma_window_shrink(a, i, b, j, n, 15, e - i - 15);
        lemma_scan_local(a, i + 15, b, j + 15);
        lemma_window_shrink(a, i, b, j, n, e - i, 10);
        lemma_window_shrink(a, i, b, j, n, e + 10 - i, e2 - e - 10);
        lemma_scan_local(a, e + 10, b, j + e + 10 - i);
        lemma_window_shrink(a, i, b, j, n, e2 - i, 2);
    } else {
        if has_at(a, i, get_head()) {
            lemma_scan_bounds(a, i + 15);
        } else {
            lemma_scan_bounds(a, i + 18);
        }
        assert(n > 2);
        assert(!has_at(b, j, set_head())) by {
            if has_at(b, j, set_head()) {
                lemma_window_byte(a, i, b, j, n, 2);
                assert(b.subrange(j, j + 15)[2] == 83);
            }
        }
        if has_at(a, i, get_head()) {
            let (kb, e) = scan_str(a, i + 15)->0;
            lemma_scan_bounds(a, i + 15);
            lemma_window_shrink(a, i, b, j, n, 0, 15);
            lemma_window_shrink(a, i, b, j, n, 15, e - i - 15);
            lemma_scan_local(a, i + 15, b, j + 15);
            lemma_window_shrink(a, i, b, j, n, e - i, 2);
        } else {
            assert(!has_at(b, j, get_head())) by {
                if has_at(b, j, get_head()) {
                    lemma_window_byte(a, i, b, j, n, 2);
                    assert(b.subrange(j, j + 15)[2] == 71);
                }
            }
            let (kb, e) = scan_str(a, i + 18)->0;
            lemma_scan_bounds(a, i + 18);
            lemma_window_shrink(a, i, b, j, n, 0, 18);
            lemma_window_shrink(a, i, b, j, n, 18, e - i - 18);
            lemma_scan_local(a, i + 18, b, j + 18);
            lemma_window_shrink(a, i, b, j, n, e - i, 2);
        }
    }
}

/// A record ends after its start and within the bytes.
pub proof fn lemma_parse_bounds(a: Seq<u8>, i: int)
    requires
        parse(a, i) is Some,
    ensures
        i < parse_end(a, i) <= a.len(),
{
    if has_at(a, i, set_head()) {
        lemma_scan_bounds(a, i + 15);
        let e = scan_end(a, i + 15);
        lemma_scan_bounds(a, e + 10);
    } else if has_at(a, i, get_head()) {
        lemma_scan_bounds(a, i + 15);
    } else {
        lemma_scan_bounds(a, i + 18);
    }
}

proof fn lemma_scan_text_quoted(s: Seq<char>, buf: Seq<u8>, i: int)
    requires
        has_at(buf, i, quoted_tail(s)),
    ensures
        scan_text(buf, i) == Some((s, i + quoted_tail(s).len())),
{
    lemma_scan_escape(encode_utf8(s), buf, i);
}

/// A record's encoding, wherever it stands, parses back to the record and
/// ends where the encoding ends.
#[verifier::rlimit(60)]
#[verifier::spinoff_prover]
pub proof fn lemma_parse_encode(r: Record, buf: Seq<u8>, i: int)
    requires
        has_at(buf, i, encode(r)),
    ensures
        parse(buf, i) == Some((r, i + encode(r).len())),
{
    let w = encode(r);
    let sub = buf.subrange(i, i + w.len());
    assert(sub == w);
    match r {
        Record::Put { key, value } => {
            let qk = quoted_tail(key);
            let qv = quoted_tail(value);
            let k_end: int = 15 + qk.len() as int;
            let v_end: int = k_end + 10 + qv.len() as int;
            assert(buf.subrange(i, i + 15) =~= w.subrange(0, 15));
            assert(w.subrange(0, 15) =~= set_head());
            assert(buf.subrange(i + 15, i + k_end) =~= w.subrange(15, k_end as int));
            assert(w.subrange(15, k_end as int) =~= qk);
            lemma_scan_text_quoted(key, buf, i + 15);
            assert(buf.subrange(i + k_end, i + k_end + 10) =~= w.subrange(
                k_end as int,
                k_end + 10,
            ));
            assert(w.subrange(k_end as int, k_end + 10) =~= value_sep());
            assert(buf.subrange(i + k_end + 10, i + v_end) =~= w.subrange(
                k_end + 10,
                v_end as int,
            ));
            assert(w.subrange(k_end + 10, v_end as int) =~= qv);
            lemma_scan_text_quoted(value, buf, i + k_end + 10);
            assert(buf.subrange(i + v_end, i + v_end + 2) =~= w.subrange(
                v_end as int,
                v_end + 2,
            ));
            assert(w.subrange(v_end as int, v_end + 2) =~= tail());
        },
        Record::Get { key } => {
            let qk = quoted_tail(key);
            let k_end: int = 15 + qk.len() as int;
            assert(buf.subrange(i, i + 15) =~= w.subrange(0, 15));
            assert(w.subrange(0, 15) =~= get_head());
            assert(!has_at(buf, i, set_head())) by {
                assert(buf.subrange(i, i + 15)[2] == 71);
            }
            assert(buf.subrange(i + 15, i + k_end) =~= w.subrange(15, k_end as int));
            assert(w.subrange(15, k_end as int) =~= qk);
            lemma_scan_text_quoted(key, buf, i + 15);
            assert(buf.subrange(i + k_end, i + k_end + 2) =~= w.subrange(
                k_end as int,
                k_end + 2,
            ));
            assert(w.subrange(k_end as int, k_end + 2) =~= tail());
        },
        Record::Remove { key } => {
            let qk = quoted_tail(key);
            let k_end: int = 18 + qk.len() as int;
            assert(buf.subrange(i, i + 18) =~= w.subrange(0, 18));
            assert(w.subrange(0, 18) =~= remove_head());
            assert(!has_at(buf, i, set_head())) by {
                assert(buf.subrange(i, i + 18)[2] == 82);
                assert(buf.subrange(i, i + 15)[2] == buf.subrange(i, i + 18)[2]);
            }
            assert(!has_at(buf, i, get_head())) by {
                assert(buf.subrange(i, i + 18)[2] == 82);
                assert(buf.subrange(i, i + 15)[2] == buf.subrange(i, i + 18)[2]);
            }
            assert(buf.subrange(i + 18, i + k_end) =~= w.subrange(18, k_end as int));
            assert(w.subrange(18, k_end as int) =~= qk);
            lemma_scan_text_quoted(key, buf, i + 18);
            assert(buf.subrange(i + k_end, i + k_end + 2) =~= w.subrange(
                k_end as int,
                k_end + 2,
            ));
            assert(w.subrange(k_end as int, k_end + 2) =~= tail());
        },
    }
}

} // verus!

verus! {

// ---------------------------------------------------------------------
// Encoding
fn set_head_bytes() -> (r: Vec<u8>)
    ensures
        r@ == set_head(),
{
    let r: Vec<u8> = vec![123u8, 34, 83, 101, 116, 34, 58, 123, 34, 107, 101, 121, 34, 58, 34];
    assert(r@ =~= set_head());
    r
}

fn get_head_bytes() -> (r: Vec<u8>)
    ensures
        r@ == get_head(),
{
    let r: Vec<u8> = vec![123u8, 34, 71, 101, 116, 34, 58, 123, 34, 107, 101, 121, 34, 58, 34];
    assert(r@ =~= get_head());
    r
}

fn remove_head_bytes() -> (r: Vec<u8>)
    ensures
        r@ == remove_head(),
{
    let r: Vec<u8> = vec![
        123u8,
        34,
        82,
        101,
        109,
        111,
        118,
        101,
        34,
        58,
        123,
        34,
        107,
        101,
        121,
        34,
        58,
        34,
    ];
    assert(r@ =~= remove_head());
    r
}

fn value_sep_bytes() -> (r: Vec<u8>)
    ensures
        r@ == value_sep(),
{
    let r: Vec<u8> = vec![44u8, 34, 118, 97, 108, 117, 101, 34, 58, 34];
    assert(r@ =~= value_sep());
    r
}

fn tail_bytes() -> (r: Vec<u8>)
    ensures
        r@ == tail(),
{
    let r: Vec<u8> = vec![125u8, 125];
    assert(r@ =~= tail());
    r
}

/// Appends `src` to `out`.
pub fn push_all(out: &mut Vec<u8>, src: &[u8])
    ensures
        final(out)@ == old(out)@ + src@,
{
    let mut i: usize = 0;
    while i < src.len()
        invariant
            i <= src@.len(),
            out@ == old(out)@ + src@.subrange(0, i as int),
        decreases src@.len() - i,
    {
        out.push(src[i]);
        i = i + 1;
        assert(out@ =~= old(out)@ + src@.subrange(0, i as int));
    }
    assert(src@.subrange(0, i as int) =~= src@);
}

fn hex_digit_exec(n: u8) -> (r: u8)
    requires
        n < 16,
    ensures
        r == hex_digit(n),
{
    if n < 10 {
        48 + n
    } else {
        87 + n
    }
}

/// Appends the escaped form of the bytes `s`.
fn push_escaped(out: &mut Vec<u8>, s: &[u8])
    ensures
        final(out)@ == old(out)@ + escape(s@),
{
    let mut i: usize = 0;
    while i < s.len()
        invariant
            i <= s@.len(),
            out@ == old(out)@ + escape(s@.subrange(0, i as int)),
        decreases s@.len() - i,
    {
        let b = s[i];
        proof {
            let pre = s@.subrange(0, i as int);
            assert(s@.subrange(0, i + 1) =~= pre + seq![b]);
            lemma_escape_concat(pre, seq![b]);
            assert(seq![b].drop_first() =~= Seq::<u8>::empty());
            assert(escape(Seq::<u8>::empty()) == Seq::<u8>::empty());
            assert(escape(seq![b]) == escape_byte(b) + escape(seq![b].drop_first()));
            assert(escape(seq![b]) =~= escape_byte(b));
        }
        if b == 34 {
            out.push(92);
            out.push(34);
        } else if b == 92 {
            out.push(92);
            out.push(92);
        } else if b < 32 {
            out.push(92);
            out.push(117);
            out.push(48);
            out.push(48);
            out.push(hex_digit_exec(b / 16));
            out.push(hex_digit_exec(b % 16));
        } else {
            out.push(b);
        }
        i = i + 1;
        assert(out@ =~= old(out)@ + escape(s@.subrange(0, i as int)));
    }
    assert(s@.subrange(0, i as int) =~= s@);
}

/// Appends a string's body and closing quote.
fn push_quoted_tail(out: &mut Vec<u8>, s: &String)
    ensures
        final(out)@ == old(out)@ + quoted_tail(s@),
{
    let bytes = s.as_str().as_bytes_vec();
    push_escaped(out, bytes.as_slice());
    out.push(34);
    assert(out@ =~= old(out)@ + quoted_tail(s@));
}

/// The bytes of a record.
pub fn encode_record(cmd: &Command) -> (r: Vec<u8>)
    ensures
        r@ == encode(cmd@),
{
    let mut out: Vec<u8>;
    match cmd {
        Command::Put { key, value } => {
            out = set_head_bytes();
            push_quoted_tail(&mut out, key);
            let sep = value_sep_bytes();
            push_all(&mut out, sep.as_slice());
            push_quoted_tail(&mut out, value);
        },
        Command::Get { key } => {
            out = get_head_bytes();
            push_quoted_tail(&mut out, key);
        },
        Command::Remove { key } => {
            out = remove_head_bytes();
            push_quoted_tail(&mut out, key);
        },
    }
    let t = tail_bytes();
    push_all(&mut out, t.as_slice());
    out
}

// ---------------------------------------------------------------------
// Parsing
/// Relies on String::from_utf8: it accepts exactly the bytes that are
/// UTF-8, and the string it returns holds the characters they encode.
#[verifier::external_body]
fn string_from_utf8(v: Vec<u8>) -> (r: Option<String>)
    ensures
        r is Some <==> valid_utf8(v@),
        r is Some ==> r->0@ == decode_utf8(v@),
{
    String::from_utf8(v).ok()
}

fn has_lit(buf: &[u8], i: usize, lit: &[u8]) -> (r: bool)
    ensures
        r == has_at(buf@, i as int, lit@),
{
    if i > buf.len() || lit.len() > buf.len() - i {
        return false;
    }
    // The length as a `usize` bounds the offsets below.
    let _len = buf.len();
    let mut k: usize = 0;
    while k < lit.len()
        invariant
            _len == buf@.len(),
            k <= lit@.len(),
            i + lit@.len() <= buf@.len(),
            forall|m: int| 0 <= m < k ==> buf@[i + m] == lit@[m],
        decreases lit@.len() - k,
    {
        assert(i + k < buf@.len());
        if buf[i + k] != lit[k] {
            assert(buf@.subrange(i as int, i + lit@.len())[k as int] != lit@[k as int]);
            return false;
        }
        k = k + 1;
    }
    assert(buf@.subrange(i as int, i + lit@.len()) =~= lit@);
    true
}

fn hex_val_exec(c: u8) -> (r: Option<u8>)
    ensures
        r == hex_val(c),
{
    if 48 <= c && c <= 57 {
        Some(c - 48)
    } else if 97 <= c && c <= 102 {
        Some(c - 87)
    } else if 65 <= c && c <= 70 {
        Some(c - 55)
    } else {
        None
    }
}

fn unescape_exec(buf: &[u8], i: usize) -> (r: Option<u8>)
    requires
        i < buf@.len(),
    ensures
        r == unescape(buf@, i as int),
{
    if buf.len() - i <= 1 {
        return None;
    }
    let c = buf[i + 1];
    if c == 34 || c == 92 || c == 47 {
        Some(c)
    } else if c == 98 {
        Some(8)
    } else if c == 102 {
        Some(12)
    } else if c == 110 {
        Some(10)
    } else if c == 114 {
        Some(13)
    } else if c == 116 {
        Some(9)
    } else if c == 117 && buf.len() - i > 5 && buf[i + 2] == 48 && buf[i + 3] == 48 {
        match (hex_val_exec(buf[i + 4]), hex_val_exec(buf[i + 5])) {
            (Some(h), Some(l)) => if h < 8 {
                Some(h * 16 + l)
            } else {
                None
            },
            _ => None,
        }
    } else {
        None
    }
}

/// Reads the string body that starts at `start`.
fn scan_string(buf: &[u8], start: usize) -> (r: Option<(Vec<u8>, usize)>)
    ensures
        match r {
            Some((b, e)) => scan_str(buf@, start as int) == Some((b@, e as int)),
            None => scan_str(buf@, start as int) is None,
        },
{
    let mut out: Vec<u8> = Vec::new();
    let mut i: usize = start;
    while i < buf.len()
        invariant
            start <= i,
            scan_str(buf@, start as int) == prepend(out@, scan_str(buf@, i as int)),
        decreases buf@.len() - i,
    {
        let b = buf[i];
        if b == 34 {
            assert(out@ + Seq::<u8>::empty() =~= out@);
            return Some((out, i + 1));
        } else if b == 92 {
            match unescape_exec(buf, i) {
                None => {
                    return None;
                },
                Some(c) => {
                    let l: usize = if i + 1 < buf.len() && buf[i + 1] == 117 {
                        6
                    } else {
                        2
                    };
                    proof {
                        assert(prepend(out@, prepend(seq![c], scan_str(buf@, i + l))) == prepend(
                            out@.push(c),
                            scan_str(buf@, i + l),
                        )) by {
                            assert(out@ + seq![c] =~= out@.push(c));
                            match scan_str(buf@, i + l) {
                                Some((r, e)) => {
                                    assert(out@ + (seq![c] + r) =~= out@.push(c) + r);
                                },
                                None => {},
                            }
                        }
                    }
                    out.push(c);
                    if i + l > buf.len() {
                        assert(scan_str(buf@, i + l) is None);
                        return None;
                    }
                    i = i + l;
                },
            }
        } else if b < 32 {
            return None;
        } else {
            proof {
                assert(prepend(out@, prepend(seq![b], scan_str(buf@, i + 1))) == prepend(
                    out@.push(b),
                    scan_str(buf@, i + 1),
                )) by {
                    match scan_str(buf@, i + 1) {
                        Some((r, e)) => {
                            assert(out@ + (seq![b] + r) =~= out@.push(b) + r);
                        },
                        None => {},
                    }
                }
            }
            out.push(b);
            i = i + 1;
        }
    }
    None
}

/// Reads a string body that must hold UTF-8.
fn scan_text_exec(buf: &[u8], start: usize) -> (r: Option<(String, usize)>)
    ensures
        match r {
            Some((s, e)) => scan_text(buf@, start as int) == Some((s@, e as int)),
            None => scan_text(buf@, start as int) is None,
        },
{
    match scan_string(buf, start) {
        None => None,
        Some((b, e)) => match string_from_utf8(b) {
            None => None,
            Some(s) => Some((s, e)),
        },
    }
}

/// Reads a key and the closing braces.
fn parse_key_tail_exec(buf: &[u8], start: usize) -> (r: Option<(String, usize)>)
    ensures
        match r {
            Some((s, e)) => parse_key_tail(buf@, start as int) == Some((s@, e as int)),
            None => parse_key_tail(buf@, start as int) is None,
        },
{
    match scan_text_exec(buf, start) {
        None => None,
        Some((k, e)) => {
            let t = tail_bytes();
            let _len = buf.len();
            assert(t@.len() == 2);
            if has_lit(buf, e, t.as_slice()) {
                Some((k, e + 2))
            } else {
                None
            }
        },
    }
}

/// Reads the record that starts at `start`: the command and the offset
/// right after it, or `None` where the bytes there are no record.
pub fn parse_record(buf: &[u8], start: usize) -> (r: Option<(Command, usize)>)
    ensures
        match r {
            Some((c, e)) => parse(buf@, start as int) == Some((c@, e as int)),
            None => parse(buf@, start as int) is None,
        },
{
    let _len = buf.len();
    let sh = set_head_bytes();
    assert(sh@.len() == 15);
    if has_lit(buf, start, sh.as_slice()) {
        match scan_text_exec(buf, start + 15) {
            None => None,
            Some((key, e)) => {
                let sep = value_sep_bytes();
                assert(sep@.len() == 10);
                if has_lit(buf, e, sep.as_slice()) {
                    match scan_text_exec(buf, e + 10) {
                        None => None,
                        Some((value, e2)) => {
                            let t = tail_bytes();
                            assert(t@.len() == 2);
                            if has_lit(buf, e2, t.as_slice()) {
                                Some((Command::Put { key, value }, e2 + 2))
                            } else {
                                None
                            }
                        },
                    }
                } else {
                    None
                }
            },
        }
    } else {
        let gh = get_head_bytes();
        assert(gh@.len() == 15);
        if has_lit(buf, start, gh.as_slice()) {
            match parse_key_tail_exec(buf, start + 15) {
                None => None,
                Some((key, e)) => Some((Command::Get { key }, e)),
            }
        } else {
            let rh = remove_head_bytes();
            assert(rh@.len() == 18);
            if has_lit(buf, start, rh.as_slice()) {
                match parse_key_tail_exec(buf, start + 18) {
                    None => None,
                    Some((key, e)) => Some((Command::Remove { key }, e)),
                }
            } else {
                None
            }
        }
    }
}

} // verus!
