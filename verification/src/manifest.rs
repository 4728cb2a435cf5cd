//! The manifest parser.
//!
//! A manifest document is a sequence of records, each terminated by a
//! newline (0x0A). A record is `path SP fingerprint SP size` with an
//! optional fourth field `SP flags`, separated by single spaces (0x20):
//! - path: one or more bytes in 0x21..=0x7E (printable ASCII, no space);
//! - fingerprint: one or more hexadecimal digit bytes;
//! - size, flags: one to nineteen decimal digit bytes.
//! A missing flags field defaults to zero. Anything else is structurally
//! invalid and fails with a `ParseError`: no partial result is ever
//! returned as if it were complete.
//!
//! Duplicate paths follow one explicit policy: the first occurrence wins,
//! later occurrences are dropped and counted, never silently overwritten.

use vstd::prelude::*;

use crate::asset::AssetDescriptor;
use crate::asset::AssetView;
use crate::asset::find_in;
use crate::asset::has_path;
use crate::asset::unique_paths;
use crate::asset::views_of;
use crate::errors::ParseError;

verus! {

/// A path byte: printable ASCII, space excluded.
pub open spec fn is_path_byte(b: u8) -> bool {
    0x21 <= b <= 0x7e
}

/// A hexadecimal digit byte.
pub open spec fn is_hex_byte(b: u8) -> bool {
    (48 <= b <= 57) || (97 <= b <= 102) || (65 <= b <= 70)
}

/// A decimal digit byte.
pub open spec fn is_digit(b: u8) -> bool {
    48 <= b <= 57
}

/// Every byte of `s` is a path byte.
pub open spec fn all_path_bytes(s: Seq<u8>) -> bool {
    forall|i: int| 0 <= i < s.len() ==> is_path_byte(s[i])
}

/// Every byte of `s` is a hexadecimal digit.
pub open spec fn all_hex(s: Seq<u8>) -> bool {
    forall|i: int| 0 <= i < s.len() ==> is_hex_byte(s[i])
}

/// A well-formed decimal field: one to nineteen digit bytes.
pub open spec fn valid_dec(s: Seq<u8>) -> bool {
    &&& 1 <= s.len() <= 19
    &&& forall|i: int| 0 <= i < s.len() ==> is_digit(s[i])
}

/// The value of a decimal digit string.
pub open spec fn dec_val(s: Seq<u8>) -> int
    decreases s.len(),
{
    if s.len() == 0 {
        0
    } else {
        dec_val(s.drop_last()) * 10 + (s.last() as int - 48)
    }
}

/// Ten to the `n`th.
pub open spec fn pow10(n: nat) -> int
    decreases n,
{
    if n == 0 {
        1
    } else {
        10 * pow10((n - 1) as nat)
    }
}

/// A decimal digit string's value is below ten to its length.
pub proof fn lemma_dec_val_bound(s: Seq<u8>)
    requires
        forall|i: int| 0 <= i < s.len() ==> is_digit(s[i]),
    ensures
        0 <= dec_val(s) < pow10(s.len()),
    decreases s.len(),
{
    if s.len() > 0 {
        lemma_dec_val_bound(s.drop_last());
    }
}

/// A nineteen-digit value fits in a `u64`.
pub proof fn lemma_dec_fits(s: Seq<u8>)
    requires
        valid_dec(s),
    ensures
        0 <= dec_val(s) <= u64::MAX,
{
    lemma_dec_val_bound(s);
    assert(pow10(19) == 10_000_000_000_000_000_000) by {
        reveal_with_fuel(pow10, 20);
    }
    assert(pow10(s.len()) <= pow10(19)) by {
        lemma_pow10_le(s.len(), 19);
    }
}

proof fn lemma_pow10_le(m: nat, n: nat)
    requires
        m <= n,
    ensures
        pow10(m) <= pow10(n),
        pow10(m) >= 1,
    decreases n,
{
    if m < n {
        lemma_pow10_le(m, (n - 1) as nat);
    } else if n > 0 {
        lemma_pow10_le((m - 1) as nat, (n - 1) as nat);
    }
}

/// The index of the first occurrence of `b` in `s`.
pub open spec fn first_at(s: Seq<u8>, b: u8) -> Option<int>
    decreases s.len(),
{
    if s.len() == 0 {
        Option::None
    } else if s[0] == b {
        Option::Some(0)
    } else {
        match first_at(s.drop_first(), b) {
            Option::Some(i) => Option::Some(i + 1),
            Option::None => Option::None,
        }
    }
}

/// `first_at` finds exactly the first occurrence.
pub proof fn lemma_first_at_found(s: Seq<u8>, b: u8, j: int)
    requires
        0 <= j < s.len(),
        s[j] == b,
        forall|k: int| 0 <= k < j ==> s[k] != b,
    ensures
        first_at(s, b) == Option::Some(j),
    decreases j,
{
    if j > 0 {
        lemma_first_at_found(s.drop_first(), b, j - 1);
    }
}

/// A found index lies within the sequence.
pub proof fn lemma_first_at_range(s: Seq<u8>, b: u8)
    ensures
        first_at(s, b) is Some ==> 0 <= first_at(s, b)->Some_0 < s.len(),
    decreases s.len(),
{
    if s.len() > 0 && s[0] != b {
        lemma_first_at_range(s.drop_first(), b);
    }
}

/// Without an occurrence, `first_at` finds nothing.
pub proof fn lemma_first_at_none(s: Seq<u8>, b: u8)
    requires
        forall|k: int| 0 <= k < s.len() ==> s[k] != b,
    ensures
        first_at(s, b) is None,
    decreases s.len(),
{
    if s.len() > 0 {
        lemma_first_at_none(s.drop_first(), b);
    }
}

/// The model of one record, if the line is well formed.
pub open spec fn spec_parse_record(l: Seq<u8>) -> Option<AssetView> {
    match first_at(l, 32) {
        Option::None => Option::None,
        Option::Some(i) => {
            let path = l.subrange(0, i);
            let rest = l.subrange(i + 1, l.len() as int);
            if i == 0 || !all_path_bytes(path) {
                Option::None
            } else {
                match first_at(rest, 32) {
                    Option::None => Option::None,
                    Option::Some(j) => {
                        let fp = rest.subrange(0, j);
                        let rest2 = rest.subrange(j + 1, rest.len() as int);
                        if j == 0 || !all_hex(fp) {
                            Option::None
                        } else {
                            match first_at(rest2, 32) {
                                Option::None => if valid_dec(rest2) {
                                    Option::Some(
                                        AssetView {
                                            path,
                                            fingerprint: fp,
                                            size: dec_val(rest2) as u64,
                                            flags: 0,
                                        },
                                    )
                                } else {
                                    Option::None
                                },
                                Option::Some(k) => {
                                    let sz = rest2.subrange(0, k);
                                    let fl = rest2.subrange(k + 1, rest2.len() as int);
                                    if valid_dec(sz) && valid_dec(fl) {
                                        Option::Some(
                                            AssetView {
                                                path,
                                                fingerprint: fp,
                                                size: dec_val(sz) as u64,
                                                flags: dec_val(fl) as u64,
                                            },
                                        )
                                    } else {
                                        Option::None
                                    }
                                },
                            }
                        }
                    },
                }
            }
        },
    }
}

/// The model of a whole document: the records' assets in order, or the
/// first failure scanning front to back. Each record must be terminated
/// by a newline; a trailing fragment without one is invalid.
pub open spec fn spec_parse_doc(s: Seq<u8>) -> Result<Seq<AssetView>, ParseError>
    decreases s.len(),
    via spec_parse_doc_decreases
{
    if s.len() == 0 {
        Result::Ok(Seq::empty())
    } else {
        match first_at(s, 10) {
            Option::None => Result::Err(ParseError::UnterminatedRecord),
            Option::Some(i) => match spec_parse_record(s.subrange(0, i)) {
                Option::None => Result::Err(ParseError::MalformedRecord),
                Option::Some(x) => match spec_parse_doc(s.subrange(i + 1, s.len() as int)) {
                    Result::Err(e) => Result::Err(e),
                    Result::Ok(r) => Result::Ok(seq![x] + r),
                },
            },
        }
    }
}

#[via_fn]
proof fn spec_parse_doc_decreases(s: Seq<u8>) {
    lemma_first_at_range(s, 10);
}

/// First occurrence wins: the subsequence that keeps each path's first
/// record and drops the later ones.
pub open spec fn dedup_first(s: Seq<AssetView>) -> Seq<AssetView>
    decreases s.len(),
{
    if s.len() == 0 {
        Seq::empty()
    } else {
        let prev = dedup_first(s.drop_last());
        if has_path(prev, s.last().path) {
            prev
        } else {
            prev.push(s.last())
        }
    }
}

/// Deduplication leaves pairwise distinct paths, and never grows the
/// sequence.
pub proof fn lemma_dedup_first(s: Seq<AssetView>)
    ensures
        unique_paths(dedup_first(s)),
        dedup_first(s).len() <= s.len(),
        forall|p: Seq<u8>| has_path(dedup_first(s), p) <==> has_path(s, p),
    decreases s.len(),
{
    if s.len() > 0 {
        let d = s.drop_last();
        let x = s.last();
        lemma_dedup_first(d);
        let prev = dedup_first(d);
        assert(d.push(x) =~= s);
        assert forall|p: Seq<u8>| has_path(dedup_first(s), p) <==> has_path(s, p) by {
            crate::asset::lemma_has_path_push(d, x, p);
            if !has_path(prev, x.path) {
                crate::asset::lemma_has_path_push(prev, x, p);
            }
        }
        if !has_path(prev, x.path) {
            assert forall|i: int, j: int|
                0 <= i < j < prev.push(x).len() implies prev.push(x)[i].path != prev.push(
                x,
            )[j].path by {
                if j == prev.len() as int {
                    if prev[i].path == x.path {
                        crate::asset::lemma_find_path_at(prev, x.path, i);
                    }
                } else {
                    assert(prev.push(x)[i] == prev[i] && prev.push(x)[j] == prev[j]);
                }
            }
        }
    }
}

/// What the parser hands back: the de-duplicated asset list and how many
/// later duplicates it dropped.
#[derive(Debug)]
pub struct ParseOutcome {
    /// The assets, in first-occurrence order, paths pairwise distinct.
    pub assets: Vec<AssetDescriptor>,
    /// How many records were dropped for repeating an earlier path.
    pub duplicates_dropped: usize,
}

/// The index of the first occurrence of `b` in `doc[from..to]`, absolute.
fn find_byte(doc: &Vec<u8>, from: usize, to: usize, b: u8) -> (r: Option<usize>)
    requires
        from <= to <= doc@.len(),
    ensures
        match r {
            Option::Some(j) => from <= j < to && doc@[j as int] == b && forall|k: int|
                from <= k < j ==> doc@[k] != b,
            Option::None => forall|k: int| from <= k < to ==> doc@[k] != b,
        },
        first_at(doc@.subrange(from as int, to as int), b) == (match r {
            Option::Some(j) => Option::Some(j - from as int),
            Option::None => Option::<int>::None,
        }),
{
    let ghost sub = doc@.subrange(from as int, to as int);
    let mut j: usize = from;
    while j < to
        invariant
            from <= j <= to <= doc@.len(),
            sub == doc@.subrange(from as int, to as int),
            forall|k: int| from <= k < j ==> doc@[k] != b,
        decreases to - j,
    {
        if doc[j] == b {
            proof {
                assert(sub[j - from as int] == doc@[j as int]);
                assert(forall|k: int| 0 <= k < j - from as int ==> sub[k] == doc@[k + from]);
                lemma_first_at_found(sub, b, j - from as int);
            }
            return Some(j);
        }
        j = j + 1;
    }
    proof {
        assert(forall|k: int| 0 <= k < sub.len() ==> sub[k] == doc@[k + from]);
        lemma_first_at_none(sub, b);
    }
    None
}

/// The value of the decimal field `doc[from..to]`, if well formed.
fn parse_dec(doc: &Vec<u8>, from: usize, to: usize) -> (r: Option<u64>)
    requires
        from <= to <= doc@.len(),
    ensures
        r is Some <==> valid_dec(doc@.subrange(from as int, to as int)),
        r is Some ==> r->Some_0 == dec_val(doc@.subrange(from as int, to as int)),
{
    let ghost sub = doc@.subrange(from as int, to as int);
    if to - from < 1 || to - from > 19 {
        return None;
    }
    let mut val: u64 = 0;
    let mut j: usize = from;
    while j < to
        invariant
            from <= j <= to <= doc@.len(),
            to - from <= 19,
            sub == doc@.subrange(from as int, to as int),
            forall|k: int| from <= k < j ==> is_digit(doc@[k]),
            val == dec_val(sub.subrange(0, j - from as int)),
        decreases to - j,
    {
        let d = doc[j];
        if d < 48 || d > 57 {
            proof {
                assert(!is_digit(sub[j - from as int]));
            }
            return None;
        }
        let ghost pre = sub.subrange(0, j - from as int);
        let ghost post = sub.subrange(0, j + 1 - from as int);
        proof {
            assert(post.drop_last() =~= pre);
            assert(post.last() == doc@[j as int]);
            assert(forall|k: int| 0 <= k < pre.len() ==> is_digit(pre[k]));
            lemma_dec_val_bound(pre);
            lemma_pow10_le(pre.len(), 18);
            assert(pow10(18) == 1_000_000_000_000_000_000) by {
                reveal_with_fuel(pow10, 19);
            }
        }
        val = val * 10 + ((d - 48) as u64);
        j = j + 1;
    }
    proof {
        assert(sub.subrange(0, to - from as int) =~= sub);
    }
    Some(val)
}

/// Checks that every byte of `doc[from..to]` satisfies the field class:
/// path bytes when `want_path`, hexadecimal digits otherwise.
pub(crate) fn check_field(doc: &Vec<u8>, from: usize, to: usize, want_path: bool) -> (r: bool)
    requires
        from <= to <= doc@.len(),
    ensures
        want_path ==> r == all_path_bytes(doc@.subrange(from as int, to as int)),
        !want_path ==> r == all_hex(doc@.subrange(from as int, to as int)),
{
    let ghost sub = doc@.subrange(from as int, to as int);
    let mut j: usize = from;
    while j < to
        invariant
            from <= j <= to <= doc@.len(),
            sub == doc@.subrange(from as int, to as int),
            want_path ==> forall|k: int| from <= k < j ==> is_path_byte(doc@[k]),
            !want_path ==> forall|k: int| from <= k < j ==> is_hex_byte(doc@[k]),
        decreases to - j,
    {
        let b = doc[j];
        let ok = if want_path {
            0x21 <= b && b <= 0x7e
        } else {
            (48 <= b && b <= 57) || (97 <= b && b <= 102) || (65 <= b && b <= 70)
        };
        if !ok {
            proof {
                assert(sub[j - from as int] == doc@[j as int]);
            }
            return false;
        }
        j = j + 1;
    }
    true
}

/// A copy of `doc[from..to]`.
pub(crate) fn copy_range(doc: &Vec<u8>, from: usize, to: usize) -> (r: Vec<u8>)
    requires
        from <= to <= doc@.len(),
    ensures
        r@ == doc@.subrange(from as int, to as int),
{
    let mut r: Vec<u8> = Vec::new();
    let mut j: usize = from;
    while j < to
        invariant
            from <= j <= to <= doc@.len(),
            r@ =~= doc@.subrange(from as int, j as int),
        decreases to - j,
    {
        r.push(doc[j]);
        j = j + 1;
    }
    proof {
        assert(r@ =~= doc@.subrange(from as int, to as int));
    }
    r
}

/// One record `doc[from..to]`, decoded if well formed.
fn parse_record(doc: &Vec<u8>, from: usize, to: usize) -> (r: Option<AssetDescriptor>)
    requires
        from <= to <= doc@.len(),
    ensures
        match r {
            Option::Some(d) => spec_parse_record(doc@.subrange(from as int, to as int))
                == Option::Some(d@),
            Option::None => spec_parse_record(doc@.subrange(from as int, to as int)) is None,
        },
{
    let ghost line = doc@.subrange(from as int, to as int);
    let i = match find_byte(doc, from, to, 32) {
        Some(i) => i,
        None => {
            return None;
        },
    };
    if i == from {
        return None;
    }
    if !check_field(doc, from, i, true) {
        proof {
            assert(line.subrange(0, i - from as int) =~= doc@.subrange(from as int, i as int));
        }
        return None;
    }
    let ghost rest = line.subrange(i + 1 - from as int, line.len() as int);
    proof {
        assert(line.subrange(0, i - from as int) =~= doc@.subrange(from as int, i as int));
        assert(rest =~= doc@.subrange(i + 1 as int, to as int));
    }
    let j = match find_byte(doc, i + 1, to, 32) {
        Some(j) => j,
        None => {
            return None;
        },
    };
    if j == i + 1 {
        return None;
    }
    if !check_field(doc, i + 1, j, false) {
        proof {
            assert(rest.subrange(0, j - (i + 1) as int) =~= doc@.subrange(i + 1 as int, j as int));
        }
        return None;
    }
    let ghost fp = rest.subrange(0, j - (i + 1) as int);
    let ghost rest2 = rest.subrange(j - i as int, rest.len() as int);
    proof {
        assert(fp =~= doc@.subrange(i + 1 as int, j as int));
        assert(rest2 =~= doc@.subrange(j + 1 as int, to as int));
    }
    match find_byte(doc, j + 1, to, 32) {
        None => {
            let size = match parse_dec(doc, j + 1, to) {
                Some(v) => v,
                None => {
                    proof {
                        assert(rest2 =~= doc@.subrange(j + 1 as int, to as int));
                    }
                    return None;
                },
            };
            proof {
                lemma_dec_fits(doc@.subrange(j + 1 as int, to as int));
            }
            Some(
                AssetDescriptor {
                    path: copy_range(doc, from, i),
                    fingerprint: copy_range(doc, i + 1, j),
                    size,
                    flags: 0,
                },
            )
        },
        Some(k) => {
            let ghost sz = rest2.subrange(0, k - (j + 1) as int);
            let ghost fl = rest2.subrange(k - j as int, rest2.len() as int);
            proof {
                assert(sz =~= doc@.subrange(j + 1 as int, k as int));
                assert(fl =~= doc@.subrange(k + 1 as int, to as int));
            }
            let size = match parse_dec(doc, j + 1, k) {
                Some(v) => v,
                None => {
                    return None;
                },
            };
            let flags = match parse_dec(doc, k + 1, to) {
                Some(v) => v,
                None => {
                    return None;
                },
            };
            proof {
                lemma_dec_fits(doc@.subrange(j + 1 as int, k as int));
                lemma_dec_fits(doc@.subrange(k + 1 as int, to as int));
            }
            Some(
                AssetDescriptor {
                    path: copy_range(doc, from, i),
                    fingerprint: copy_range(doc, i + 1, j),
                    size,
                    flags,
                },
            )
        },
    }
}

/// Parses a manifest document.
///
/// Succeeds exactly when every record is newline-terminated and well
/// formed; the outcome holds the records' assets in order, first
/// occurrence of each path winning, with the count of dropped later
/// duplicates. On failure the error names the first thing that broke,
/// scanning front to back: a malformed record, or a final record without
/// its newline.
pub fn parse(doc: &Vec<u8>) -> (r: Result<ParseOutcome, ParseError>)
    ensures
        r is Ok <==> spec_parse_doc(doc@) is Ok,
        r is Ok ==> views_of(r->Ok_0.assets@) == dedup_first(spec_parse_doc(doc@)->Ok_0),
        r is Ok ==> unique_paths(views_of(r->Ok_0.assets@)),
        r is Ok ==> r->Ok_0.duplicates_dropped + dedup_first(spec_parse_doc(doc@)->Ok_0).len()
            == spec_parse_doc(doc@)->Ok_0.len(),
        r is Err ==> r->Err_0 == spec_parse_doc(doc@)->Err_0,
{
    let n = doc.len();
    let mut pos: usize = 0;
    let mut assets: Vec<AssetDescriptor> = Vec::new();
    let mut dups: usize = 0;
    let ghost mut parsed: Seq<AssetView> = Seq::empty();
    proof {
        assert(doc@.subrange(0, n as int) =~= doc@);
    }
    while pos < n
        invariant
            pos <= n == doc@.len(),
            parsed.len() <= pos,
            (spec_parse_doc(doc@) is Ok <==> spec_parse_doc(
                doc@.subrange(pos as int, n as int),
            ) is Ok),
            spec_parse_doc(doc@) is Ok ==> spec_parse_doc(doc@)->Ok_0 == parsed + spec_parse_doc(
                doc@.subrange(pos as int, n as int),
            )->Ok_0,
            spec_parse_doc(doc@) is Err ==> spec_parse_doc(doc@) == spec_parse_doc(
                doc@.subrange(pos as int, n as int),
            ),
            views_of(assets@) == dedup_first(parsed),
            dups + dedup_first(parsed).len() == parsed.len(),
        decreases n - pos,
    {
        let ghost suffix = doc@.subrange(pos as int, n as int);
        let nl = match find_byte(doc, pos, n, 10) {
            Some(j) => j,
            None => {
                proof {
                    assert(spec_parse_doc(suffix) == Result::<Seq<AssetView>, ParseError>::Err(
                        ParseError::UnterminatedRecord,
                    ));
                }
                return Err(ParseError::UnterminatedRecord);
            },
        };
        let ghost line = suffix.subrange(0, nl - pos as int);
        let ghost tail = suffix.subrange(nl + 1 - pos as int, suffix.len() as int);
        proof {
            assert(line =~= doc@.subrange(pos as int, nl as int));
            assert(tail =~= doc@.subrange(nl + 1 as int, n as int));
        }
        let rec = match parse_record(doc, pos, nl) {
            Some(d) => d,
            None => {
                proof {
                    assert(spec_parse_doc(suffix) == Result::<Seq<AssetView>, ParseError>::Err(
                        ParseError::MalformedRecord,
                    ));
                }
                return Err(ParseError::MalformedRecord);
            },
        };
        proof {
            assert(spec_parse_doc(suffix) == (match spec_parse_doc(tail) {
                Result::<Seq<AssetView>, ParseError>::Err(e) => Result::<
                    Seq<AssetView>,
                    ParseError,
                >::Err(e),
                Result::<Seq<AssetView>, ParseError>::Ok(r) => Result::<
                    Seq<AssetView>,
                    ParseError,
                >::Ok(seq![rec@] + r),
            }));
            if spec_parse_doc(tail) is Ok && spec_parse_doc(doc@) is Ok {
                assert((parsed + spec_parse_doc(suffix)->Ok_0) =~= (parsed.push(rec@)
                    + spec_parse_doc(tail)->Ok_0));
            }
        }
        let ghost parsed0 = parsed;
        proof {
            parsed = parsed.push(rec@);
            assert(parsed.drop_last() =~= parsed0);
            lemma_dedup_first(parsed0);
        }
        match find_in(&assets, &rec.path) {
            Some(ix) => {
                proof {
                    assert(views_of(assets@)[ix as int].path == rec@.path);
                    crate::asset::lemma_find_path_at(views_of(assets@), rec@.path, ix as int);
                    assert(has_path(dedup_first(parsed0), rec@.path));
                    assert(dedup_first(parsed) == dedup_first(parsed0));
                }
                dups = dups + 1;
            },
            None => {
                proof {
                    assert(!has_path(dedup_first(parsed0), rec@.path));
                    assert(dedup_first(parsed) == dedup_first(parsed0).push(rec@));
                }
                assets.push(rec);
                proof {
                    assert(views_of(assets@) =~= dedup_first(parsed));
                }
            },
        }
        pos = nl + 1;
        proof {
            assert(doc@.subrange(pos as int, n as int) =~= tail);
        }
    }
    proof {
        assert(doc@.subrange(pos as int, n as int) =~= Seq::<u8>::empty());
        assert(spec_parse_doc(doc@.subrange(pos as int, n as int)) == Result::<
            Seq<AssetView>,
            ParseError,
        >::Ok(Seq::<AssetView>::empty()));
        if spec_parse_doc(doc@) is Ok {
            assert(spec_parse_doc(doc@)->Ok_0 =~= parsed);
        }
        lemma_dedup_first(parsed);
    }
    Ok(ParseOutcome { assets, duplicates_dropped: dups })
}

} // verus!
