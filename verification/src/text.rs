//! Instance files as text: lines split on `\n`, tokens split on blanks, and
//! decimal integers read from tokens.

use vstd::prelude::*;

verus! {

/// Why an instance text was refused.
#[derive(Debug, Clone, Copy, PartialEq, Eq, Structural)]
pub enum InstanceError {
    /// The text holds no data line.
    MissingHeader,
    /// The first data line is not a valid header.
    BadHeader,
    /// The data line with this index (counted from `0`, the header) is not
    /// valid.
    BadLine(usize),
}

/// A one-byte blank: space, or one of tab, line feed, vertical tab, form
/// feed and carriage return.
pub open spec fn is_blank(b: u8) -> bool {
    b == 32 || (9 <= b && b <= 13)
}

/// The length of the UTF-8 encoding of a multi-byte Unicode white-space
/// character (U+0085, U+00A0, U+1680, U+2000 to U+200A, U+2028, U+2029,
/// U+202F, U+205F, U+3000) that starts at byte `i` of `s`, or `0`.
pub open spec fn wide_blank_len(s: Seq<u8>, i: int) -> int {
    if i + 1 < s.len() && s[i] == 0xC2 && (s[i + 1] == 0x85 || s[i + 1] == 0xA0) {
        2
    } else if i + 2 < s.len() && s[i] == 0xE1 && s[i + 1] == 0x9A && s[i + 2] == 0x80 {
        3
    } else if i + 2 < s.len() && s[i] == 0xE2 && s[i + 1] == 0x80
        && ((0x80 <= s[i + 2] && s[i + 2] <= 0x8A) || s[i + 2] == 0xA8 || s[i + 2] == 0xA9 || s[i + 2] == 0xAF) {
        3
    } else if i + 2 < s.len() && s[i] == 0xE2 && s[i + 1] == 0x81 && s[i + 2] == 0x9F {
        3
    } else if i + 2 < s.len() && s[i] == 0xE3 && s[i + 1] == 0x80 && s[i + 2] == 0x80 {
        3
    } else {
        0
    }
}

/// `s` from byte `i` on, with every multi-byte white-space character
/// replaced by as many spaces as it has bytes.
pub open spec fn normalized_from(s: Seq<u8>, i: int) -> Seq<u8>
    decreases s.len() - i,
{
    if i < 0 || i >= s.len() {
        Seq::empty()
    } else if wide_blank_len(s, i) > 0 {
        Seq::new(wide_blank_len(s, i) as nat, |k: int| 32u8) + normalized_from(s, i + wide_blank_len(s, i))
    } else {
        seq![s[i]] + normalized_from(s, i + 1)
    }
}

/// The text with every multi-byte white-space character replaced by spaces.
pub open spec fn normalized(s: Seq<u8>) -> Seq<u8> {
    normalized_from(s, 0)
}

/// `text` with every multi-byte white-space character replaced by spaces.
pub fn normalize_blanks(text: &[u8]) -> (r: Vec<u8>)
    ensures
        r@ == normalized(text@),
{
    let n = text.len();
    let mut out: Vec<u8> = Vec::new();
    let mut i: usize = 0;
    while i < n
        invariant
            i <= n,
            n == text@.len(),
            out@ + normalized_from(text@, i as int) == normalized(text@),
        decreases n - i,
    {
        let ghost before = out@;
        let b = text[i];
        let k: usize = if b == 0xC2 && n - i > 1 && (text[i + 1] == 0x85 || text[i + 1] == 0xA0) {
            2
        } else if n - i > 2 && b == 0xE1 && text[i + 1] == 0x9A && text[i + 2] == 0x80 {
            3
        } else if n - i > 2 && b == 0xE2 && text[i + 1] == 0x80
            && ((0x80 <= text[i + 2] && text[i + 2] <= 0x8A) || text[i + 2] == 0xA8 || text[i + 2] == 0xA9 || text[i + 2] == 0xAF) {
            3
        } else if n - i > 2 && b == 0xE2 && text[i + 1] == 0x81 && text[i + 2] == 0x9F {
            3
        } else if n - i > 2 && b == 0xE3 && text[i + 1] == 0x80 && text[i + 2] == 0x80 {
            3
        } else {
            0
        };
        proof {
            assert(k as int == wide_blank_len(text@, i as int));
        }
        if k == 0 {
            out.push(b);
            proof {
                assert(out@ + normalized_from(text@, i + 1) =~= before + normalized_from(text@, i as int));
            }
            i += 1;
        } else {
            let mut t: usize = 0;
            while t < k
                invariant
                    t <= k,
                    out@ == before + Seq::new(t as nat, |q: int| 32u8),
                decreases k - t,
            {
                out.push(32);
                t += 1;
                proof {
                    assert(out@ =~= before + Seq::new(t as nat, |q: int| 32u8));
                }
            }
            proof {
                assert(out@ + normalized_from(text@, i + k) =~= before + normalized_from(text@, i as int));
            }
            i += k;
        }
    }
    proof {
        assert(normalized_from(text@, i as int) == Seq::<u8>::empty());
        assert(out@ =~= normalized(text@));
    }
    out
}

/// Scanning `s` for tokens: the tokens completed so far and the token being
/// read.
pub open spec fn scan_tokens(s: Seq<u8>) -> (Seq<Seq<u8>>, Seq<u8>)
    decreases s.len(),
{
    if s.len() == 0 {
        (Seq::empty(), Seq::empty())
    } else {
        let prev = scan_tokens(s.drop_last());
        let b = s.last();
        if is_blank(b) {
            if prev.1.len() > 0 { (prev.0.push(prev.1), Seq::empty()) } else { (prev.0, Seq::empty()) }
        } else {
            (prev.0, prev.1.push(b))
        }
    }
}

/// The tokens of a line: its maximal runs of non-blank bytes.
pub open spec fn tokens(s: Seq<u8>) -> Seq<Seq<u8>> {
    let st = scan_tokens(s);
    if st.1.len() > 0 { st.0.push(st.1) } else { st.0 }
}

/// Scanning `s` for lines: the lines completed so far and the line being
/// read.
pub open spec fn scan_lines(s: Seq<u8>) -> (Seq<Seq<u8>>, Seq<u8>)
    decreases s.len(),
{
    if s.len() == 0 {
        (Seq::empty(), Seq::empty())
    } else {
        let prev = scan_lines(s.drop_last());
        if s.last() == 10 { (prev.0.push(prev.1), Seq::empty()) } else { (prev.0, prev.1.push(s.last())) }
    }
}

/// The lines of a text: split on `\n`, the text after the last `\n`
/// included when it is not empty.
pub open spec fn lines(s: Seq<u8>) -> Seq<Seq<u8>> {
    let st = scan_lines(s);
    if st.1.len() > 0 { st.0.push(st.1) } else { st.0 }
}

/// A line that holds data: some token, the first not starting with `#`.
pub open spec fn is_data(toks: Seq<Seq<u8>>) -> bool {
    toks.len() > 0 && toks[0][0] != 35
}

/// The token lists of the data lines of the lines `ls`, in order.
pub open spec fn data_lines_of(ls: Seq<Seq<u8>>) -> Seq<Seq<Seq<u8>>>
    decreases ls.len(),
{
    if ls.len() == 0 {
        Seq::empty()
    } else {
        let prev = data_lines_of(ls.drop_last());
        let t = tokens(ls.last());
        if is_data(t) { prev.push(t) } else { prev }
    }
}

/// The token lists of the data lines of a text, white space of every kind
/// separating tokens.
pub open spec fn data_lines(s: Seq<u8>) -> Seq<Seq<Seq<u8>>> {
    data_lines_of(lines(normalized(s)))
}

/// The token lists of every line of a text, white space of every kind
/// separating tokens.
pub open spec fn text_token_lines(s: Seq<u8>) -> Seq<Seq<Seq<u8>>> {
    token_lines(lines(normalized(s)))
}

/// The tokens of `line`, each a maximal run of non-blank bytes.
pub fn split_tokens(line: &[u8]) -> (r: Vec<Vec<u8>>)
    ensures
        r.deep_view() == tokens(line@),
{
    let mut toks: Vec<Vec<u8>> = Vec::new();
    let mut cur: Vec<u8> = Vec::new();
    let mut i: usize = 0;
    while i < line.len()
        invariant
            0 <= i <= line@.len(),
            toks.deep_view() == scan_tokens(line@.take(i as int)).0,
            cur@ == scan_tokens(line@.take(i as int)).1,
        decreases line@.len() - i,
    {
        let b = line[i];
        proof {
            assert(line@.take(i as int + 1).drop_last() =~= line@.take(i as int));
            assert(line@.take(i as int + 1).last() == b);
        }
        if b == 32 || (9 <= b && b <= 13) {
            if cur.len() > 0 {
                let ghost t0 = toks.deep_view();
                let ghost c = cur@;
                proof {
                    assert(cur.deep_view() =~= c);
                }
                let done = cur;
                toks.push(done);
                proof {
                    assert(toks.deep_view() =~= t0.push(c));
                }
                cur = Vec::new();
            }
        } else {
            cur.push(b);
        }
        i += 1;
    }
    proof {
        assert(line@.take(line@.len() as int) =~= line@);
    }
    if cur.len() > 0 {
        let ghost t0 = toks.deep_view();
        let ghost c = cur@;
        proof {
            assert(cur.deep_view() =~= c);
        }
        toks.push(cur);
        proof {
            assert(toks.deep_view() =~= t0.push(c));
        }
    }
    toks
}

/// The token lists of the data lines of `text`: lines split on `\n`,
/// tokens split on blanks, and every line without tokens or whose first
/// token starts with `#` left out.
pub fn split_data_lines(text: &[u8]) -> (r: Vec<Vec<Vec<u8>>>)
    ensures
        r.deep_view() == data_lines(text@),
{
    let plain = normalize_blanks(text);
    split_plain_data_lines(plain.as_slice())
}

/// [`split_data_lines`] on a text whose only blanks are single bytes.
fn split_plain_data_lines(text: &[u8]) -> (r: Vec<Vec<Vec<u8>>>)
    ensures
        r.deep_view() == data_lines_of(lines(text@)),
{
    let mut out: Vec<Vec<Vec<u8>>> = Vec::new();
    let mut start: usize = 0;
    let mut i: usize = 0;
    let ghost mut ls: Seq<Seq<u8>> = Seq::empty();
    while i < text.len()
        invariant
            0 <= start <= i <= text@.len(),
            scan_lines(text@.take(i as int)).0 == ls,
            scan_lines(text@.take(i as int)).1 == text@.subrange(start as int, i as int),
            out.deep_view() == data_lines_of(ls),
        decreases text@.len() - i,
    {
        proof {
            assert(text@.take(i as int + 1).drop_last() =~= text@.take(i as int));
            assert(text@.take(i as int + 1).last() == text@[i as int]);
        }
        if text[i] == 10 {
            add_line(text, start, i, &mut out, Ghost(ls));
            proof {
                ls = ls.push(text@.subrange(start as int, i as int));
            }
            start = i + 1;
        }
        i += 1;
        proof {
            assert(text@.subrange(start as int, i as int) =~= scan_lines(text@.take(i as int)).1);
        }
    }
    proof {
        assert(text@.take(text@.len() as int) =~= text@);
    }
    if start < text.len() {
        add_line(text, start, text.len(), &mut out, Ghost(ls));
    }
    out
}

/// Appends the tokens of `text[start..end]` to `out` when that line holds
/// data.
fn add_line(text: &[u8], start: usize, end: usize, out: &mut Vec<Vec<Vec<u8>>>, Ghost(ls): Ghost<Seq<Seq<u8>>>)
    requires
        start <= end <= text@.len(),
        old(out).deep_view() == data_lines_of(ls),
    ensures
        final(out).deep_view() == data_lines_of(ls.push(text@.subrange(start as int, end as int))),
{
    let line = slice_of(text, start, end);
    let toks = split_tokens(line.as_slice());
    let ghost t = tokens(line@);
    let ghost ls2 = ls.push(line@);
    proof {
        assert(ls2.drop_last() =~= ls);
        assert(toks@.len() == t.len());
        if toks@.len() > 0 {
            assert(toks@[0]@ =~= t[0]);
        }
    }
    if toks.len() > 0 && toks[0].len() > 0 && toks[0][0] != 35 {
        let ghost o0 = out.deep_view();
        let ghost td = toks.deep_view();
        out.push(toks);
        proof {
            assert(is_data(t));
            assert(out.deep_view() =~= o0.push(td));
        }
    } else {
        proof {
            lemma_token_nonempty(line@);
            assert(!is_data(t));
        }
    }
}

/// Every token of a line is non-empty.
pub proof fn lemma_token_nonempty(s: Seq<u8>)
    ensures
        forall|k: int| 0 <= k < tokens(s).len() ==> (#[trigger] tokens(s)[k]).len() > 0,
{
    lemma_scan_nonempty(s);
}

proof fn lemma_scan_nonempty(s: Seq<u8>)
    ensures
        forall|k: int| 0 <= k < scan_tokens(s).0.len() ==> (#[trigger] scan_tokens(s).0[k]).len() > 0,
    decreases s.len(),
{
    if s.len() > 0 {
        let prev = scan_tokens(s.drop_last());
        lemma_scan_nonempty(s.drop_last());
        assert forall|k: int| 0 <= k < scan_tokens(s).0.len() implies (#[trigger] scan_tokens(s).0[k]).len() > 0 by {
            if k < prev.0.len() {
                assert(scan_tokens(s).0[k] == prev.0[k]);
            }
        }
    }
}

/// A copy of `text[start..end]`.
fn slice_of(text: &[u8], start: usize, end: usize) -> (r: Vec<u8>)
    requires
        start <= end <= text@.len(),
    ensures
        r@ == text@.subrange(start as int, end as int),
{
    let mut r: Vec<u8> = Vec::new();
    let mut i: usize = start;
    while i < end
        invariant
            start <= i <= end,
            end <= text@.len(),
            r@ == text@.subrange(start as int, i as int),
        decreases end - i,
    {
        r.push(text[i]);
        i += 1;
        proof {
            assert(r@ =~= text@.subrange(start as int, i as int));
        }
    }
    r
}

/// Every byte is a decimal digit, and there is one.
pub open spec fn all_digits(s: Seq<u8>) -> bool {
    s.len() > 0 && forall|k: int| 0 <= k < s.len() ==> 48 <= #[trigger] s[k] <= 57
}

/// The value of a string of decimal digits.
pub open spec fn digits_value(s: Seq<u8>) -> int
    decreases s.len(),
{
    if s.len() == 0 {
        0
    } else {
        digits_value(s.drop_last()) * 10 + (s.last() - 48)
    }
}

/// The unsigned decimal value of `tok`, if it is all digits and fits a
/// `u64`.
pub fn parse_u64(tok: &[u8]) -> (r: Option<u64>)
    ensures
        r is Some <==> all_digits(tok@) && digits_value(tok@) <= u64::MAX,
        r matches Some(v) ==> v == digits_value(tok@),
{
    if tok.len() == 0 {
        return None;
    }
    let mut v: u64 = 0;
    let mut i: usize = 0;
    while i < tok.len()
        invariant
            0 <= i <= tok@.len(),
            tok@.len() > 0,
            forall|k: int| 0 <= k < i ==> 48 <= #[trigger] tok@[k] <= 57,
            v == digits_value(tok@.take(i as int)),
        decreases tok@.len() - i,
    {
        let b = tok[i];
        proof {
            assert(tok@.take(i as int + 1).drop_last() =~= tok@.take(i as int));
        }
        if b < 48 || b > 57 {
            proof {
                assert(!all_digits(tok@));
            }
            return None;
        }
        let d = (b - 48) as u64;
        if v > (u64::MAX - d) / 10 {
            proof {
                assert(digits_value(tok@.take(i as int + 1)) > u64::MAX) by (nonlinear_arith)
                    requires digits_value(tok@.take(i as int + 1)) == v * 10 + d, v > (u64::MAX - d) / 10, d <= 9;
                if all_digits(tok@) {
                    lemma_digits_prefix_le(tok@, i as int + 1);
                }
            }
            return None;
        }
        v = v * 10 + d;
        i += 1;
    }
    proof {
        assert(tok@.take(tok@.len() as int) =~= tok@);
    }
    Some(v)
}

/// A prefix of a digit string has no larger value.
proof fn lemma_digits_prefix_le(s: Seq<u8>, m: int)
    requires
        0 <= m <= s.len(),
        forall|k: int| 0 <= k < s.len() ==> 48 <= #[trigger] s[k] <= 57,
    ensures
        0 <= digits_value(s.take(m)) <= digits_value(s),
    decreases s.len(),
{
    if m == s.len() {
        assert(s.take(m) =~= s);
        lemma_digits_nonneg(s);
    } else {
        let t = s.drop_last();
        assert(s.take(m) =~= t.take(m));
        lemma_digits_prefix_le(t, m);
        lemma_digits_nonneg(t);
    }
}

/// A digit string has a non-negative value.
proof fn lemma_digits_nonneg(s: Seq<u8>)
    requires
        forall|k: int| 0 <= k < s.len() ==> 48 <= #[trigger] s[k] <= 57,
    ensures
        digits_value(s) >= 0,
    decreases s.len(),
{
    if s.len() > 0 {
        lemma_digits_nonneg(s.drop_last());
    }
}

/// The signed decimal value of a token: an optional `-` or `+` and digits.
pub open spec fn signed_value(s: Seq<u8>) -> Option<int> {
    if s.len() > 0 && s[0] == 45 {
        if all_digits(s.drop_first()) { Some(-digits_value(s.drop_first())) } else { None }
    } else if s.len() > 0 && s[0] == 43 {
        if all_digits(s.drop_first()) { Some(digits_value(s.drop_first())) } else { None }
    } else {
        if all_digits(s) { Some(digits_value(s)) } else { None }
    }
}

/// The signed decimal value of `tok`, if it has that form and lies in
/// `lo..=hi`.
pub fn parse_signed(tok: &[u8], lo: i64, hi: i64) -> (r: Option<i64>)
    requires
        lo <= 0 <= hi,
    ensures
        r is Some <==> (signed_value(tok@) matches Some(v) && lo <= v <= hi),
        r matches Some(v) ==> signed_value(tok@) == Some(v as int),
{
    if tok.len() > 0 && (tok[0] == 45 || tok[0] == 43) {
        let rest = slice_of(tok, 1, tok.len());
        proof {
            assert(rest@ =~= tok@.drop_first());
        }
        match parse_u64(rest.as_slice()) {
            Some(m) => {
                if tok[0] == 45 {
                    if m <= (-(lo as i128)) as u64 {
                        Some((-(m as i128)) as i64)
                    } else {
                        None
                    }
                } else {
                    if m <= hi as u64 {
                        Some(m as i64)
                    } else {
                        None
                    }
                }
            },
            None => None,
        }
    } else {
        match parse_u64(tok) {
            Some(m) => {
                if m <= hi as u64 {
                    Some(m as i64)
                } else {
                    None
                }
            },
            None => None,
        }
    }
}

/// The unsigned decimal value of a token: an optional `+` and digits.
pub open spec fn unsigned_value(s: Seq<u8>) -> Option<int> {
    if s.len() > 0 && s[0] == 43 {
        if all_digits(s.drop_first()) { Some(digits_value(s.drop_first())) } else { None }
    } else {
        if all_digits(s) { Some(digits_value(s)) } else { None }
    }
}

/// The value of a token read as a `usize`.
pub open spec fn usize_token(s: Seq<u8>) -> Option<int> {
    if unsigned_value(s) is Some && unsigned_value(s)->0 <= usize::MAX { unsigned_value(s) } else { None }
}

/// The value of a token read as an `i32`.
pub open spec fn i32_token(s: Seq<u8>) -> Option<int> {
    if signed_value(s) is Some && i32::MIN <= signed_value(s)->0 <= i32::MAX { signed_value(s) } else { None }
}

/// `tok` read as a `usize`: an optional `+` and decimal digits.
pub fn parse_usize(tok: &[u8]) -> (r: Option<usize>)
    ensures
        r is Some <==> usize_token(tok@) is Some,
        r matches Some(v) ==> usize_token(tok@) == Some(v as int),
{
    let m = if tok.len() > 0 && tok[0] == 43 {
        let rest = slice_of(tok, 1, tok.len());
        proof {
            assert(rest@ =~= tok@.drop_first());
        }
        parse_u64(rest.as_slice())
    } else {
        parse_u64(tok)
    };
    match m {
        Some(v) => {
            if v <= usize::MAX as u64 {
                Some(v as usize)
            } else {
                None
            }
        },
        None => None,
    }
}

/// `tok` read as an `i32`: an optional sign and decimal digits.
pub fn parse_i32(tok: &[u8]) -> (r: Option<i32>)
    ensures
        r is Some <==> i32_token(tok@) is Some,
        r matches Some(v) ==> i32_token(tok@) == Some(v as int),
{
    match parse_signed(tok, i32::MIN as i64, i32::MAX as i64) {
        Some(v) => Some(v as i32),
        None => None,
    }
}

/// The value of a token read as a `u32`.
pub open spec fn u32_token(s: Seq<u8>) -> Option<int> {
    if unsigned_value(s) is Some && unsigned_value(s)->0 <= u32::MAX { unsigned_value(s) } else { None }
}

/// `tok` read as a `u32`: an optional `+` and decimal digits.
pub fn parse_u32(tok: &[u8]) -> (r: Option<u32>)
    ensures
        r is Some <==> u32_token(tok@) is Some,
        r matches Some(v) ==> u32_token(tok@) == Some(v as int),
{
    match parse_usize(tok) {
        Some(v) => {
            if v <= u32::MAX as usize {
                Some(v as u32)
            } else {
                None
            }
        },
        None => {
            proof {
                if u32_token(tok@) is Some {
                    assert(usize_token(tok@) is Some);
                }
            }
            None
        },
    }
}

/// The tokens of the lines `ls`, line after line.
pub open spec fn concat_lines(ls: Seq<Seq<Seq<u8>>>) -> Seq<Seq<u8>>
    decreases ls.len(),
{
    if ls.len() == 0 {
        Seq::empty()
    } else {
        concat_lines(ls.drop_last()) + ls.last()
    }
}

/// The tokens of the data lines of `text`, line after line.
pub fn data_tokens(text: &[u8]) -> (r: Vec<Vec<u8>>)
    ensures
        r.deep_view() == concat_lines(data_lines(text@)),
{
    let lines = split_data_lines(text);
    let ghost dl = data_lines(text@);
    let mut out: Vec<Vec<u8>> = Vec::new();
    let mut l: usize = 0;
    while l < lines.len()
        invariant
            l <= lines@.len(),
            lines.deep_view() == dl,
            out.deep_view() == concat_lines(dl.take(l as int)),
        decreases lines@.len() - l,
    {
        let line = &lines[l];
        proof {
            assert(line.deep_view() == dl[l as int]);
        }
        let ghost before = out.deep_view();
        let mut t: usize = 0;
        while t < line.len()
            invariant
                t <= line@.len(),
                line.deep_view() == dl[l as int],
                out.deep_view() == before + dl[l as int].take(t as int),
            decreases line@.len() - t,
        {
            let tok = copy_bytes(line[t].as_slice());
            let ghost o0 = out.deep_view();
            proof {
                assert(tok.deep_view() =~= tok@);
                assert(line@[t as int].deep_view() == dl[l as int][t as int]);
                assert(line@[t as int]@ =~= dl[l as int][t as int]);
            }
            out.push(tok);
            proof {
                assert(out.deep_view() =~= o0.push(tok@));
                assert(before + dl[l as int].take(t as int + 1) =~= (before + dl[l as int].take(t as int)).push(dl[l as int][t as int]));
            }
            t += 1;
        }
        proof {
            assert(dl[l as int].take(t as int) =~= dl[l as int]);
            assert(dl.take(l as int + 1).drop_last() =~= dl.take(l as int));
        }
        l += 1;
    }
    proof {
        assert(dl.take(l as int) =~= dl);
    }
    out
}

/// A copy of `b`.
fn copy_bytes(b: &[u8]) -> (r: Vec<u8>)
    ensures
        r@ == b@,
{
    slice_of(b, 0, b.len())
}

/// The token lists of every line of the lines `ls`.
pub open spec fn token_lines(ls: Seq<Seq<u8>>) -> Seq<Seq<Seq<u8>>> {
    Seq::new(ls.len(), |k: int| tokens(ls[k]))
}

/// The token lists of every line of `text`, blank and comment lines
/// included.
pub fn split_token_lines(text: &[u8]) -> (r: Vec<Vec<Vec<u8>>>)
    ensures
        r.deep_view() == text_token_lines(text@),
{
    let plain = normalize_blanks(text);
    split_plain_token_lines(plain.as_slice())
}

/// [`split_token_lines`] on a text whose only blanks are single bytes.
fn split_plain_token_lines(text: &[u8]) -> (r: Vec<Vec<Vec<u8>>>)
    ensures
        r.deep_view() == token_lines(lines(text@)),
{
    let mut out: Vec<Vec<Vec<u8>>> = Vec::new();
    let mut start: usize = 0;
    let mut i: usize = 0;
    let ghost mut ls: Seq<Seq<u8>> = Seq::empty();
    while i < text.len()
        invariant
            0 <= start <= i <= text@.len(),
            scan_lines(text@.take(i as int)).0 == ls,
            scan_lines(text@.take(i as int)).1 == text@.subrange(start as int, i as int),
            out.deep_view() == token_lines(ls),
        decreases text@.len() - i,
    {
        proof {
            assert(text@.take(i as int + 1).drop_last() =~= text@.take(i as int));
            assert(text@.take(i as int + 1).last() == text@[i as int]);
        }
        if text[i] == 10 {
            push_token_line(text, start, i, &mut out, Ghost(ls));
            proof {
                ls = ls.push(text@.subrange(start as int, i as int));
            }
            start = i + 1;
        }
        i += 1;
        proof {
            assert(text@.subrange(start as int, i as int) =~= scan_lines(text@.take(i as int)).1);
        }
    }
    proof {
        assert(text@.take(text@.len() as int) =~= text@);
    }
    if start < text.len() {
        push_token_line(text, start, text.len(), &mut out, Ghost(ls));
    }
    out
}

/// Appends the tokens of `text[start..end]` to `out`.
fn push_token_line(text: &[u8], start: usize, end: usize, out: &mut Vec<Vec<Vec<u8>>>, Ghost(ls): Ghost<Seq<Seq<u8>>>)
    requires
        start <= end <= text@.len(),
        old(out).deep_view() == token_lines(ls),
    ensures
        final(out).deep_view() == token_lines(ls.push(text@.subrange(start as int, end as int))),
{
    let line = slice_of(text, start, end);
    let toks = split_tokens(line.as_slice());
    let ghost o0 = out.deep_view();
    let ghost td = toks.deep_view();
    out.push(toks);
    proof {
        assert(out.deep_view() =~= o0.push(td));
        assert(token_lines(ls.push(line@)) =~= token_lines(ls).push(tokens(line@)));
    }
}

/// The value of a token read as an `i64`.
pub open spec fn i64_token(s: Seq<u8>) -> Option<int> {
    if signed_value(s) is Some && i64::MIN <= signed_value(s)->0 <= i64::MAX { signed_value(s) } else { None }
}

/// `tok` read as an `i64`: an optional sign and decimal digits.
pub fn parse_i64(tok: &[u8]) -> (r: Option<i64>)
    ensures
        r is Some <==> i64_token(tok@) is Some,
        r matches Some(v) ==> i64_token(tok@) == Some(v as int),
{
    parse_signed(tok, i64::MIN, i64::MAX)
}

/// The character of the decimal digit `d`.
pub open spec fn digit_char(d: nat) -> char {
    if d == 0 { '0' } else if d == 1 { '1' } else if d == 2 { '2' } else if d == 3 { '3' }
    else if d == 4 { '4' } else if d == 5 { '5' } else if d == 6 { '6' } else if d == 7 { '7' }
    else if d == 8 { '8' } else { '9' }
}

/// The decimal rendering of `n`, without leading zeros.
pub open spec fn decimal(n: nat) -> Seq<char>
    decreases n,
{
    if n < 10 { seq![digit_char(n)] } else { decimal(n / 10) + seq![digit_char(n % 10)] }
}

/// The text of one decimal digit.
fn digit_str(d: usize) -> (r: &'static str)
    requires
        d < 10,
    ensures
        r@ == seq![digit_char(d as nat)],
{
    proof {
        reveal_strlit("0");
        reveal_strlit("1");
        reveal_strlit("2");
        reveal_strlit("3");
        reveal_strlit("4");
        reveal_strlit("5");
        reveal_strlit("6");
        reveal_strlit("7");
        reveal_strlit("8");
        reveal_strlit("9");
    }
    if d == 0 { "0" } else if d == 1 { "1" } else if d == 2 { "2" } else if d == 3 { "3" }
    else if d == 4 { "4" } else if d == 5 { "5" } else if d == 6 { "6" } else if d == 7 { "7" }
    else if d == 8 { "8" } else { "9" }
}

/// `n` written in decimal.
pub fn decimal_text(n: usize) -> (r: String)
    ensures
        r@ == decimal(n as nat),
    decreases n,
{
    if n < 10 {
        String::from_str(digit_str(n))
    } else {
        let mut s = decimal_text(n / 10);
        s.append(digit_str(n % 10));
        s
    }
}

} // verus!
