//! Locating historical archive files for a requested start time: the name
//! of the hour's websocket chunk, the pattern of that hour's book
//! snapshots, and the earliest snapshot per product among a set of paths.

use vstd::prelude::*;
use vstd::string::StrSliceExecFns;

use crate::digits::padded_digits;
use crate::digits::push_char;
use crate::digits::push_padded;

verus! {

/// A wall-clock instant in UTC, split into its components.
#[derive(Copy, Clone, Debug, PartialEq, Eq, Structural)]
pub struct UtcTime {
    pub year: u64,
    pub month: u64,
    pub day: u64,
    pub hour: u64,
    pub minute: u64,
    pub second: u64,
}

impl UtcTime {
    /// A calendar-valid instant with a four-digit year.
    pub open spec fn wf(self) -> bool {
        &&& self.year <= 9999
        &&& 1 <= self.month <= 12
        &&& 1 <= self.day <= 31
        &&& self.hour < 24
        &&& self.minute < 60
        &&& self.second < 60
    }
}

/// The name of the websocket chunk covering the hour of `t`.
pub open spec fn spec_chunk_filename(t: UtcTime) -> Seq<char> {
    "data/ws_"@ + padded_digits(t.year as int, 4) + padded_digits(t.month as int, 2)
        + padded_digits(t.day as int, 2) + seq!['_'] + padded_digits(t.hour as int, 2)
        + "0000.txt.gz"@
}

/// The glob pattern of the book snapshots written during the hour of `t`.
pub open spec fn spec_snapshot_pattern(t: UtcTime) -> Seq<char> {
    "data/???-???_"@ + padded_digits(t.year as int, 4) + padded_digits(t.month as int, 2)
        + padded_digits(t.day as int, 2) + seq!['_'] + padded_digits(t.hour as int, 2)
        + "????.json.gz"@
}

/// Builds the chunk filename `data/ws_YYYYMMDD_HH0000.txt.gz` for `t`.
pub fn chunk_filename(t: &UtcTime) -> (r: String)
    requires
        t.wf(),
    ensures
        r@ == spec_chunk_filename(*t),
{
    let mut s = String::from_str("data/ws_");
    push_padded(&mut s, t.year, 4);
    push_padded(&mut s, t.month, 2);
    push_padded(&mut s, t.day, 2);
    push_char(&mut s, '_');
    push_padded(&mut s, t.hour, 2);
    s.append("0000.txt.gz");
    proof {
        assert(s@ =~= spec_chunk_filename(*t));
    }
    s
}

/// Builds the snapshot glob pattern `data/???-???_YYYYMMDD_HH????.json.gz`
/// for `t`.
pub fn snapshot_pattern(t: &UtcTime) -> (r: String)
    requires
        t.wf(),
    ensures
        r@ == spec_snapshot_pattern(*t),
{
    let mut s = String::from_str("data/???-???_");
    push_padded(&mut s, t.year, 4);
    push_padded(&mut s, t.month, 2);
    push_padded(&mut s, t.day, 2);
    push_char(&mut s, '_');
    push_padded(&mut s, t.hour, 2);
    s.append("????.json.gz");
    proof {
        assert(s@ =~= spec_snapshot_pattern(*t));
    }
    s
}

/// Whether `name` matches the snapshot pattern for `t`: the literal parts
/// and date digits in place, and any characters but a path separator where
/// the pattern holds a `?`.
pub open spec fn snapshot_name_matches(t: UtcTime, name: Seq<char>) -> bool {
    &&& name.len() == 36
    &&& name.subrange(0, 5) == "data/"@
    &&& (forall|i: int| 5 <= i < 8 ==> #[trigger] name[i] != '/')
    &&& name[8] == '-'
    &&& (forall|i: int| 9 <= i < 12 ==> #[trigger] name[i] != '/')
    &&& name[12] == '_'
    &&& name.subrange(13, 17) == padded_digits(t.year as int, 4)
    &&& name.subrange(17, 19) == padded_digits(t.month as int, 2)
    &&& name.subrange(19, 21) == padded_digits(t.day as int, 2)
    &&& name[21] == '_'
    &&& name.subrange(22, 24) == padded_digits(t.hour as int, 2)
    &&& (forall|i: int| 24 <= i < 28 ==> #[trigger] name[i] != '/')
    &&& name.subrange(28, 36) == ".json.gz"@
}

/// The product prefix of a snapshot name: the seven characters after the
/// directory part.
pub open spec fn product_of(name: Seq<char>) -> Seq<char> {
    name.subrange(5, 12)
}

/// Whether one of the chars under a `?` of the pattern is a path separator.
fn any_slash(name: &str, start: usize, end: usize) -> (r: bool)
    requires
        start <= end <= name@.len(),
    ensures
        r == exists|i: int| start <= i < end && #[trigger] name@[i] == '/',
{
    let mut i: usize = start;
    while i < end
        invariant
            start <= i <= end <= name@.len(),
            forall|k: int| start <= k < i ==> #[trigger] name@[k] != '/',
        decreases end - i,
    {
        if name.get_char(i) == '/' {
            return true;
        }
        i = i + 1;
    }
    false
}

/// Whether the characters of `name` from `start` equal the literal `lit`.
fn matches_literal(name: &str, start: usize, lit: &str) -> (r: bool)
    requires
        start + lit@.len() <= name@.len() <= usize::MAX,
    ensures
        r == (name@.subrange(start as int, start as int + lit@.len() as int) == lit@),
{
    let m = lit.unicode_len();
    let mut i: usize = 0;
    while i < m
        invariant
            i <= m,
            m == lit@.len(),
            start + m <= name@.len() <= usize::MAX,
            forall|k: int| 0 <= k < i ==> #[trigger] name@[start + k] == lit@[k],
        decreases m - i,
    {
        if name.get_char(start + i) != lit.get_char(i) {
            proof {
                assert(name@.subrange(start as int, start as int + m as int)[i as int] != lit@[
                    i as int]);
            }
            return false;
        }
        i = i + 1;
    }
    proof {
        assert forall|k: int| 0 <= k < m implies name@.subrange(
            start as int,
            start as int + m as int,
        )[k] == lit@[k] by {
            assert(name@[start + k] == lit@[k]);
        }
        assert(name@.subrange(start as int, start as int + m as int) =~= lit@);
    }
    true
}

/// Whether the `w` characters of `name` from `start` are the zero-padded
/// decimal rendering of `n`.
fn matches_padded(name: &str, start: usize, n: u64, w: u64) -> (r: bool)
    requires
        start + w <= name@.len() <= usize::MAX,
        w <= 4,
    ensures
        r == (name@.subrange(start as int, start as int + w as int) == padded_digits(
            n as int,
            w as int,
        )),
    decreases w,
{
    if w == 0 {
        proof {
            assert(name@.subrange(start as int, start as int) =~= padded_digits(n as int, 0));
        }
        true
    } else {
        let c = name.get_char(start + (w - 1) as usize);
        let expect = crate::digits::digit_to_char((n % 10) as u8);
        let ghost sub = name@.subrange(start as int, start as int + w as int);
        proof {
            assert(padded_digits(n as int, w as int).last() == crate::digits::digit_char(
                n as int % 10,
            ));
            assert(sub.last() == name@[start + w - 1]);
            assert(sub.drop_last() =~= name@.subrange(start as int, start as int + w - 1));
            assert(padded_digits(n as int, w as int).drop_last() =~= padded_digits(
                (n / 10) as int,
                w - 1,
            ));
        }
        if c != expect {
            proof {
                assert(sub != padded_digits(n as int, w as int));
            }
            false
        } else {
            let rest = matches_padded(name, start, n / 10, w - 1);
            proof {
                if rest {
                    assert(sub =~= padded_digits(n as int, w as int));
                } else {
                    assert(sub != padded_digits(n as int, w as int));
                }
            }
            rest
        }
    }
}

/// Decides `snapshot_name_matches` for an actual path.
pub fn matches_snapshot_name(t: &UtcTime, name: &str) -> (r: bool)
    ensures
        r == snapshot_name_matches(*t, name@),
{
    if name.unicode_len() != 36 {
        return false;
    }
    proof {
        reveal_strlit("data/");
        reveal_strlit(".json.gz");
    }
    let ok = matches_literal(name, 0, "data/") && !any_slash(name, 5, 8) && name.get_char(8) == '-'
        && !any_slash(name, 9, 12) && name.get_char(12) == '_' && matches_padded(
        name,
        13,
        t.year,
        4,
    ) && matches_padded(name, 17, t.month, 2) && matches_padded(name, 19, t.day, 2)
        && name.get_char(21) == '_' && matches_padded(name, 22, t.hour, 2) && !any_slash(
        name,
        24,
        28,
    ) && matches_literal(name, 28, ".json.gz");
    ok
}

/// Lexicographic order on character sequences, by code point, shorter
/// prefix first; this is the order in which archive names sort by time.
pub open spec fn lex_le(a: Seq<char>, b: Seq<char>) -> bool
    decreases a.len(),
{
    if a.len() == 0 {
        true
    } else if b.len() == 0 {
        false
    } else if (a[0] as u32) < (b[0] as u32) {
        true
    } else if (a[0] as u32) > (b[0] as u32) {
        false
    } else {
        lex_le(a.drop_first(), b.drop_first())
    }
}

proof fn lemma_lex_refl(a: Seq<char>)
    ensures
        lex_le(a, a),
    decreases a.len(),
{
    if a.len() > 0 {
        lemma_lex_refl(a.drop_first());
    }
}

proof fn lemma_lex_total(a: Seq<char>, b: Seq<char>)
    ensures
        lex_le(a, b) || lex_le(b, a),
    decreases a.len(),
{
    if a.len() > 0 && b.len() > 0 && (a[0] as u32) == (b[0] as u32) {
        lemma_lex_total(a.drop_first(), b.drop_first());
    }
}

proof fn lemma_lex_trans(a: Seq<char>, b: Seq<char>, c: Seq<char>)
    requires
        lex_le(a, b),
        lex_le(b, c),
    ensures
        lex_le(a, c),
    decreases a.len(),
{
    if a.len() > 0 && b.len() > 0 && c.len() > 0 && (a[0] as u32) == (b[0] as u32) && (b[0] as u32)
        == (c[0] as u32) {
        lemma_lex_trans(a.drop_first(), b.drop_first(), c.drop_first());
    }
}

/// Decides `lex_le` for two actual strings.
pub fn str_lex_le(a: &str, b: &str) -> (r: bool)
    ensures
        r == lex_le(a@, b@),
{
    let an = a.unicode_len();
    let bn = b.unicode_len();
    let mut i: usize = 0;
    proof {
        assert(a@.skip(0) =~= a@);
        assert(b@.skip(0) =~= b@);
    }
    while i < an && i < bn
        invariant
            i <= an,
            i <= bn,
            an == a@.len(),
            bn == b@.len(),
            lex_le(a@, b@) == lex_le(a@.skip(i as int), b@.skip(i as int)),
        decreases an - i,
    {
        let ca = a.get_char(i);
        let cb = b.get_char(i);
        proof {
            assert(a@.skip(i as int)[0] == a@[i as int]);
            assert(b@.skip(i as int)[0] == b@[i as int]);
            assert(a@.skip(i as int).drop_first() =~= a@.skip(i + 1));
            assert(b@.skip(i as int).drop_first() =~= b@.skip(i + 1));
        }
        if (ca as u32) < (cb as u32) {
            return true;
        }
        if (ca as u32) > (cb as u32) {
            return false;
        }
        i = i + 1;
    }
    proof {
        if i >= an {
            assert(a@.skip(i as int).len() == 0);
        } else {
            assert(b@.skip(i as int).len() == 0);
            assert(a@.skip(i as int).len() > 0);
        }
    }
    an <= bn
}

/// Index of the entry keyed by this product, searching from the youngest;
/// `-1` when there is none.
pub open spec fn find_product_entry(es: Seq<(String, String)>, key: Seq<char>) -> int
    decreases es.len(),
{
    if es.len() == 0 {
        -1
    } else if es.last().0@ == key {
        es.len() - 1
    } else {
        find_product_entry(es.drop_last(), key)
    }
}

proof fn lemma_find_product_entry_props(es: Seq<(String, String)>, key: Seq<char>)
    ensures
        find_product_entry(es, key) == -1 ==> forall|i: int| 0 <= i < es.len() ==> (
        #[trigger] es[i].0@) != key,
        find_product_entry(es, key) != -1 ==> 0 <= find_product_entry(es, key) < es.len()
            && es[find_product_entry(es, key)].0@ == key,
    decreases es.len(),
{
    if es.len() > 0 && es.last().0@ != key {
        lemma_find_product_entry_props(es.drop_last(), key);
        if find_product_entry(es, key) == -1 {
            assert forall|i: int| 0 <= i < es.len() implies (#[trigger] es[i].0@) != key by {
                if i < es.len() - 1 {
                    assert(es.drop_last()[i] == es[i]);
                }
            }
        }
    }
}

/// Backward scan for the entry keyed `key`; agrees with
/// `find_product_entry`.
fn find_entry_idx(es: &Vec<(String, String)>, key: &String) -> (r: Option<usize>)
    ensures
        (match r {
            Some(i) => i < es@.len() && i as int == find_product_entry(es@, key@),
            None => find_product_entry(es@, key@) == -1,
        }),
{
    let n = es.len();
    let mut i: usize = n;
    proof {
        assert(es@.take(n as int) =~= es@);
    }
    while i > 0
        invariant
            i <= n,
            n == es@.len(),
            find_product_entry(es@, key@) == find_product_entry(es@.take(i as int), key@),
        decreases i,
    {
        i = i - 1;
        proof {
            assert(es@.take(i + 1).last() == es@[i as int]);
            assert(es@.take(i + 1).drop_last() =~= es@.take(i as int));
        }
        if es[i].0 == *key {
            return Some(i);
        }
    }
    None
}

/// One chosen entry is sound with respect to the candidate paths `seen`:
/// its path is one of them, it matches the pattern for `t`, it carries the
/// entry's product, and no other matching path of that product sorts
/// before it.
pub open spec fn entry_ok(t: UtcTime, seen: Seq<String>, e: (String, String)) -> bool {
    &&& exists|x: int| 0 <= x < seen.len() && #[trigger] seen[x] == e.1
    &&& snapshot_name_matches(t, e.1@)
    &&& product_of(e.1@) == e.0@
    &&& forall|x: int|
        0 <= x < seen.len() && snapshot_name_matches(t, (#[trigger] seen[x])@) && product_of(
            seen[x]@,
        ) == e.0@ ==> lex_le(e.1@, seen[x]@)
}

/// Every matching path among `seen` has an entry for its product.
pub open spec fn covers(t: UtcTime, seen: Seq<String>, es: Seq<(String, String)>) -> bool {
    forall|x: int|
        0 <= x < seen.len() && snapshot_name_matches(t, (#[trigger] seen[x])@)
            ==> find_product_entry(es, product_of(seen[x]@)) >= 0
}

/// Picks, for each product, the lexicographically smallest path among the
/// candidates that match the snapshot pattern for `t`; a path's product is
/// its seven-character name prefix.  Candidates that do not match are
/// ignored.
pub fn best_snapshot_per_product(t: &UtcTime, paths: &Vec<String>) -> (r: Vec<(String, String)>)
    ensures
        forall|a: int, b: int|
            0 <= a < b < r@.len() ==> (#[trigger] r@[a].0@) != (#[trigger] r@[b].0@),
        forall|k: int| 0 <= k < r@.len() ==> entry_ok(*t, paths@, #[trigger] r@[k]),
        covers(*t, paths@, r@),
{
    let mut out: Vec<(String, String)> = Vec::new();
    let mut x: usize = 0;
    while x < paths.len()
        invariant
            x <= paths@.len(),
            forall|a: int, b: int|
                0 <= a < b < out@.len() ==> (#[trigger] out@[a].0@) != (#[trigger] out@[b].0@),
            forall|k: int| 0 <= k < out@.len() ==> entry_ok(*t, paths@.take(x as int), #[trigger] out@[k]),
            covers(*t, paths@.take(x as int), out@),
        decreases paths@.len() - x,
    {
        let ghost seen0 = paths@.take(x as int);
        let ghost seen1 = paths@.take(x as int + 1);
        proof {
            assert(seen1.drop_last() =~= seen0);
            assert(seen1.last() == paths@[x as int]);
        }
        let p = &paths[x];
        if matches_snapshot_name(t, p.as_str()) {
            let prod = String::from_str(p.as_str().substring_char(5, 12));
            proof {
                assert(prod@ == product_of(p@));
            }
            match find_entry_idx(&out, &prod) {
                None => {
                    let ghost out0 = out@;
                    proof {
                        lemma_find_product_entry_props(out@, prod@);
                        lemma_lex_refl(p@);
                    }
                    out.push((prod, p.clone()));
                    proof {
                        assert(out@.drop_last() =~= out0);
                        assert(out@.last().0@ == product_of(paths@[x as int]@));
                        assert forall|k: int| 0 <= k < out@.len() implies entry_ok(
                            *t,
                            seen1,
                            #[trigger] out@[k],
                        ) by {
                            if k < out@.len() - 1 {
                                assert(entry_ok(*t, seen0, out@[k]));
                                assert(out@[k].0@ != product_of(paths@[x as int]@));
                            }
                        }
                        assert forall|y: int|
                            0 <= y < seen1.len() && snapshot_name_matches(
                                *t,
                                (#[trigger] seen1[y])@,
                            ) implies find_product_entry(out@, product_of(seen1[y]@)) >= 0 by {
                            lemma_find_product_entry_props(out@, product_of(seen1[y]@));
                            if y < seen0.len() {
                                assert(covers(*t, seen0, out0));
                                lemma_find_product_entry_props(out0, product_of(seen1[y]@));
                            }
                        }
                    }
                },
                Some(k) => {
                    let replace = {
                        let le1 = str_lex_le(p.as_str(), out[k].1.as_str());
                        let le2 = str_lex_le(out[k].1.as_str(), p.as_str());
                        le1 && !le2
                    };
                    let ghost out0 = out@;
                    if replace {
                        out[k].1 = p.clone();
                    }
                    proof {
                        lemma_find_product_entry_props(out0, prod@);
                        assert forall|kk: int| 0 <= kk < out@.len() implies entry_ok(
                            *t,
                            seen1,
                            #[trigger] out@[kk],
                        ) by {
                            assert(entry_ok(*t, seen0, out0[kk]));
                            if kk == k {
                                if replace {
                                    assert forall|y: int|
                                        0 <= y < seen1.len() && snapshot_name_matches(
                                            *t,
                                            (#[trigger] seen1[y])@,
                                        ) && product_of(seen1[y]@) == out@[kk].0@ implies lex_le(
                                        out@[kk].1@,
                                        seen1[y]@,
                                    ) by {
                                        if y < seen0.len() {
                                            lemma_lex_trans(p@, out0[k as int].1@, seen1[y]@);
                                        } else {
                                            lemma_lex_refl(p@);
                                        }
                                    }
                                } else {
                                    lemma_lex_total(p@, out0[k as int].1@);
                                    assert(lex_le(out0[k as int].1@, p@));
                                }
                            } else {
                                assert(out@[kk] == out0[kk]);
                                assert(out@[kk].0@ != prod@);
                            }
                        }
                        assert(forall|i: int|
                            0 <= i < out@.len() ==> (#[trigger] out@[i].0) == out0[i].0);
                        assert forall|y: int|
                            0 <= y < seen1.len() && snapshot_name_matches(
                                *t,
                                (#[trigger] seen1[y])@,
                            ) implies find_product_entry(out@, product_of(seen1[y]@)) >= 0 by {
                            lemma_find_product_entry_congruent(out0, out@, product_of(seen1[y]@));
                            if y < seen0.len() {
                                assert(covers(*t, seen0, out0));
                            } else {
                                assert(find_product_entry(out0, prod@) == k as int);
                            }
                        }
                    }
                },
            }
        } else {
            proof {
                assert forall|k: int| 0 <= k < out@.len() implies entry_ok(
                    *t,
                    seen1,
                    #[trigger] out@[k],
                ) by {
                    assert(entry_ok(*t, seen0, out@[k]));
                }
                assert forall|y: int|
                    0 <= y < seen1.len() && snapshot_name_matches(*t, (#[trigger] seen1[y])@)
                        implies find_product_entry(out@, product_of(seen1[y]@)) >= 0 by {
                    assert(covers(*t, seen0, out@));
                }
            }
        }
        x = x + 1;
    }
    proof {
        assert(paths@.take(paths@.len() as int) =~= paths@);
    }
    out
}

proof fn lemma_find_product_entry_congruent(
    es1: Seq<(String, String)>,
    es2: Seq<(String, String)>,
    key: Seq<char>,
)
    requires
        es1.len() == es2.len(),
        forall|i: int| 0 <= i < es1.len() ==> (#[trigger] es1[i].0) == es2[i].0,
    ensures
        find_product_entry(es1, key) == find_product_entry(es2, key),
    decreases es1.len(),
{
    if es1.len() > 0 {
        lemma_find_product_entry_congruent(es1.drop_last(), es2.drop_last(), key);
    }
}

} // verus!
