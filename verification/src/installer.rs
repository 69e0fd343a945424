//! Installing DLLs: recognising PE images, naming and listing backups, and
//! choosing the DLL inside a downloaded ZIP archive.

use vstd::prelude::*;

use crate::text::{chars_of, contains_sub, ends_with, extend_chars, is_suffix, lex_lt, lowercase, string_of};

verus! {

// ---------------------------------------------------------------------------
// PE images
// ---------------------------------------------------------------------------

/// The bytes begin with the `MZ` signature of a PE image.
pub open spec fn pe_magic(head: Seq<u8>) -> bool {
    head.len() >= 2 && head[0] == 0x4d && head[1] == 0x5a
}

/// Whether `head`, the first bytes of a file, begins with the `MZ` signature
/// of a PE image. A file shorter than two bytes is no PE image.
pub fn has_pe_magic(head: &[u8]) -> (res: bool)
    ensures
        res == pe_magic(head@),
{
    head.len() >= 2 && head[0] == 0x4d && head[1] == 0x5a
}

// ---------------------------------------------------------------------------
// Backup file names
// ---------------------------------------------------------------------------

/// The suffix `.bak` of every backup file name.
pub open spec fn bak_suffix() -> Seq<char> {
    seq!['.', 'b', 'a', 'k']
}

fn bak_suffix_chars() -> (res: Vec<char>)
    ensures
        res@ == bak_suffix(),
{
    let v = vec!['.', 'b', 'a', 'k'];
    assert(v@ == bak_suffix());
    v
}

/// An original path turned into a flat file name: every `:` dropped and
/// every `\` replaced by `_`.
pub open spec fn backup_stem(s: Seq<char>) -> Seq<char>
    decreases s.len(),
{
    if s.len() == 0 {
        seq![]
    } else {
        let prev = backup_stem(s.drop_last());
        let c = s.last();
        if c == ':' {
            prev
        } else if c == '\\' {
            prev.push('_')
        } else {
            prev.push(c)
        }
    }
}

/// The file name under which a backup of `original` is kept:
/// `<stem>.bak`, for example `C_Windows_System32_dxgi.dll.bak` for
/// `C:\Windows\System32\dxgi.dll`.
pub fn backup_file_name(original: &str) -> (res: String)
    ensures
        res@ == backup_stem(original@) + bak_suffix(),
{
    let cs = chars_of(original);
    let mut out: Vec<char> = Vec::new();
    for i in 0..cs.len()
        invariant
            out@ == backup_stem(cs@.take(i as int)),
    {
        let c = cs[i];
        assert(cs@.take(i + 1).drop_last() == cs@.take(i as int));
        if c == ':' {
        } else if c == '\\' {
            out.push('_');
        } else {
            out.push(c);
        }
    }
    assert(cs@.take(cs.len() as int) == cs@);
    let suffix = bak_suffix_chars();
    extend_chars(&mut out, &suffix);
    string_of(&out)
}

/// `k` is the index of the first `c` in `s`.
pub open spec fn first_at(s: Seq<char>, c: char, k: int) -> bool {
    0 <= k < s.len() && s[k] == c && forall|j: int| 0 <= j < k ==> s[j] != c
}

/// `s` with every `_` turned back into `\`.
pub open spec fn unescape(s: Seq<char>) -> Seq<char> {
    s.map_values(|c: char| if c == '_' { '\\' } else { c })
}

/// The original path that a backup file name stands for: the name without
/// `.bak`, its first `_` turned into `:\` and every later `_` into `\`.
/// `None` where the name does not end in `.bak` or holds no `_`.
pub open spec fn spec_parse_backup_name(name: Seq<char>) -> Option<Seq<char>> {
    if !is_suffix(bak_suffix(), name) {
        None
    } else {
        let stem = name.take(name.len() - 4);
        if exists|k: int| first_at(stem, '_', k) {
            let k = choose|k: int| first_at(stem, '_', k);
            Some(stem.take(k) + seq![':', '\\'] + unescape(stem.skip(k + 1)))
        } else {
            None
        }
    }
}

fn parse_backup_chars(name: &Vec<char>) -> (res: Option<Vec<char>>)
    ensures
        match res {
            Some(o) => spec_parse_backup_name(name@) == Some(o@),
            None => spec_parse_backup_name(name@) is None,
        },
{
    let suffix = bak_suffix_chars();
    if !ends_with(name, &suffix) {
        return None;
    }
    let stem_len = name.len() - 4;
    let ghost stem = name@.take(stem_len as int);
    let mut k: usize = 0;
    while k < stem_len && name[k] != '_'
        invariant
            k <= stem_len,
            stem_len < name.len(),
            stem == name@.take(stem_len as int),
            forall|j: int| 0 <= j < k ==> stem[j] != '_',
        decreases stem_len - k,
    {
        k = k + 1;
    }
    if k == stem_len {
        assert(!exists|k: int| first_at(stem, '_', k));
        return None;
    }
    assert(first_at(stem, '_', k as int));
    let ghost chosen = choose|k: int| first_at(stem, '_', k);
    assert(chosen == k) by {
        if chosen < k {
            assert(stem[chosen] == '_');
        } else if chosen > k {
            assert(stem[k as int] == '_');
        }
    }
    let mut out: Vec<char> = Vec::new();
    let mut i: usize = 0;
    while i < k
        invariant
            k < stem_len < name.len(),
            i <= k,
            stem == name@.take(stem_len as int),
            out@ == stem.take(i as int),
        decreases k - i,
    {
        out.push(name[i]);
        assert(stem.take(i + 1) == stem.take(i as int).push(stem[i as int]));
        i = i + 1;
    }
    out.push(':');
    out.push('\\');
    let ghost head = out@;
    assert(head == stem.take(k as int) + seq![':', '\\']);
    let mut j: usize = k + 1;
    while j < stem_len
        invariant
            k < j <= stem_len < name.len(),
            stem == name@.take(stem_len as int),
            out@ == head + unescape(stem.subrange(k + 1, j as int)),
        decreases stem_len - j,
    {
        let c = name[j];
        assert(stem.subrange(k + 1, j + 1) == stem.subrange(k + 1, j as int).push(c));
        if c == '_' {
            out.push('\\');
        } else {
            out.push(c);
        }
        assert(unescape(stem.subrange(k + 1, j + 1)) =~= unescape(stem.subrange(k + 1, j as int)).push(
            if c == '_' { '\\' } else { c },
        ));
        j = j + 1;
    }
    assert(stem.subrange(k + 1, stem_len as int) == stem.skip(k + 1));
    Some(out)
}

/// The original path that a backup file name stands for (see
/// `spec_parse_backup_name`); for example `C:\Windows\System32\dxgi.dll` for
/// `C_Windows_System32_dxgi.dll.bak`.
pub fn parse_backup_name(filename: &str) -> (res: Option<String>)
    ensures
        match res {
            Some(o) => spec_parse_backup_name(filename@) == Some(o@),
            None => spec_parse_backup_name(filename@) is None,
        },
{
    let cs = chars_of(filename);
    match parse_backup_chars(&cs) {
        Some(o) => Some(string_of(&o)),
        None => None,
    }
}

proof fn lemma_backup_stem_append(a: Seq<char>, b: Seq<char>)
    ensures
        backup_stem(a + b) == backup_stem(a) + backup_stem(b),
    decreases b.len(),
{
    if b.len() == 0 {
        assert(a + b == a);
    } else {
        lemma_backup_stem_append(a, b.drop_last());
        assert((a + b).drop_last() == a + b.drop_last());
        assert((a + b).last() == b.last());
    }
}

/// `s` with every `\` turned into `_`.
pub open spec fn escape(s: Seq<char>) -> Seq<char> {
    s.map_values(|c: char| if c == '\\' { '_' } else { c })
}

proof fn lemma_backup_stem_no_colon(s: Seq<char>)
    requires
        forall|i: int| 0 <= i < s.len() ==> s[i] != ':',
    ensures
        backup_stem(s) == escape(s),
    decreases s.len(),
{
    if s.len() > 0 {
        lemma_backup_stem_no_colon(s.drop_last());
        assert(escape(s) =~= escape(s.drop_last()).push(if s.last() == '\\' { '_' } else { s.last() }));
    } else {
        assert(escape(s) =~= seq![]);
    }
}

/// A backup file name leads back to the path it was made from: for a path
/// `<drive>:\<rest>` whose drive holds no `:`, `\` or `_` and whose rest
/// holds no `:` or `_`, `parse_backup_name` of `backup_file_name` of the
/// path is the path itself.
pub proof fn lemma_backup_name_roundtrip(drive: Seq<char>, rest: Seq<char>)
    requires
        forall|i: int| 0 <= i < drive.len() ==> drive[i] != ':' && drive[i] != '\\' && drive[i] != '_',
        forall|i: int| 0 <= i < rest.len() ==> rest[i] != ':' && rest[i] != '_',
    ensures
        spec_parse_backup_name(backup_stem(drive + seq![':', '\\'] + rest) + bak_suffix())
            == Some(drive + seq![':', '\\'] + rest),
{
    let sep = seq![':', '\\'];
    let path = drive + sep + rest;
    lemma_backup_stem_append(drive + sep, rest);
    lemma_backup_stem_append(drive, sep);
    lemma_backup_stem_no_colon(drive);
    lemma_backup_stem_no_colon(rest);
    assert(escape(drive) =~= drive);
    assert(sep.drop_last() =~= seq![':']);
    assert(seq![':'].drop_last() =~= Seq::<char>::empty());
    assert(backup_stem(sep) =~= seq!['_']) by {
        reveal_with_fuel(backup_stem, 3);
    }
    let stem = drive + seq!['_'] + escape(rest);
    assert(backup_stem(path) == stem);
    let name = stem + bak_suffix();
    assert(name.skip(name.len() - 4) =~= bak_suffix());
    assert(name.take(name.len() - 4) =~= stem);
    let k = drive.len() as int;
    assert(first_at(stem, '_', k));
    let chosen = choose|k: int| first_at(stem, '_', k);
    assert(chosen == k) by {
        if chosen < k {
            assert(stem[chosen] == drive[chosen]);
        } else if chosen > k {
            assert(stem[k] == '_');
        }
    }
    assert(stem.take(k) =~= drive);
    assert(stem.skip(k + 1) =~= escape(rest));
    assert(unescape(escape(rest)) =~= rest);
}

/// A backup file name holds no `:` and no `\`.
pub proof fn lemma_backup_stem_flat(s: Seq<char>)
    ensures
        forall|i: int| 0 <= i < backup_stem(s).len() ==> backup_stem(s)[i] != ':' && backup_stem(s)[i] != '\\',
    decreases s.len(),
{
    if s.len() > 0 {
        lemma_backup_stem_flat(s.drop_last());
        let prev = backup_stem(s.drop_last());
        assert forall|i: int| 0 <= i < backup_stem(s).len() implies backup_stem(s)[i] != ':'
            && backup_stem(s)[i] != '\\' by {
            if i < prev.len() {
                assert(backup_stem(s)[i] == prev[i]);
            }
        }
    }
}

// ---------------------------------------------------------------------------
// Listing backups
// ---------------------------------------------------------------------------

/// A file name whose extension is `bak`: it ends in `.bak` and holds more
/// than the four characters of `.bak` (`.bak` alone has no extension).
pub open spec fn has_bak_extension(name: Seq<char>) -> bool {
    name.len() > 4 && is_suffix(bak_suffix(), name)
}

/// A backup of `original` is listed under `filter`: there is no filter, the
/// filter is empty, or the lowercased filter occurs in the lowercased path.
pub open spec fn passes_filter(original: Seq<char>, filter: Option<Seq<char>>) -> bool {
    match filter {
        None => true,
        Some(f) => f.len() == 0 || contains_sub(lowercase(original), lowercase(f)),
    }
}

/// The backups that a directory holding the files `names` offers under
/// `filter`, in directory order: the original path of each file with
/// extension `bak` whose name parses and whose path passes the filter, paired
/// with the file's index in `names`.
pub open spec fn backup_candidates(names: Seq<Seq<char>>, filter: Option<Seq<char>>) -> Seq<(Seq<char>, int)>
    decreases names.len(),
{
    if names.len() == 0 {
        seq![]
    } else {
        let prev = backup_candidates(names.drop_last(), filter);
        let name = names.last();
        if has_bak_extension(name) && spec_parse_backup_name(name) is Some && passes_filter(
            spec_parse_backup_name(name).unwrap(),
            filter,
        ) {
            prev.push((spec_parse_backup_name(name).unwrap(), names.len() - 1))
        } else {
            prev
        }
    }
}

/// The listing order: by original path, and by position in the directory
/// between backups of the same path (a stable sort by path).
pub open spec fn entry_lt(a: (Seq<char>, int), b: (Seq<char>, int)) -> bool {
    lex_lt(a.0, b.0) || (a.0 == b.0 && a.1 < b.1)
}

/// Each element sorts strictly before every later one.
pub open spec fn strictly_sorted(s: Seq<(Seq<char>, int)>) -> bool {
    forall|i: int, j: int| 0 <= i < j < s.len() ==> entry_lt(#[trigger] s[i], #[trigger] s[j])
}

/// `listing` holds exactly the elements of `items`, in listing order.
pub open spec fn is_listing_of(listing: Seq<(Seq<char>, int)>, items: Seq<(Seq<char>, int)>) -> bool {
    &&& strictly_sorted(listing)
    &&& forall|x: (Seq<char>, int)| listing.contains(x) <==> items.contains(x)
}

/// The abstract value of a listing: each path as characters, each index as
/// an integer.
pub open spec fn listing_view(v: Seq<(String, usize)>) -> Seq<(Seq<char>, int)> {
    v.map_values(|e: (String, usize)| (e.0@, e.1 as int))
}

/// The abstract value of an optional string.
pub open spec fn opt_str_view(o: Option<&str>) -> Option<Seq<char>> {
    match o {
        Some(s) => Some(s@),
        None => None,
    }
}

spec fn chars_listing_view(v: Seq<(Vec<char>, usize)>) -> Seq<(Seq<char>, int)> {
    v.map_values(|e: (Vec<char>, usize)| (e.0@, e.1 as int))
}

proof fn lemma_entry_lt_transitive(a: (Seq<char>, int), b: (Seq<char>, int), c: (Seq<char>, int))
    requires
        entry_lt(a, b),
        entry_lt(b, c),
    ensures
        entry_lt(a, c),
{
    if lex_lt(a.0, b.0) && lex_lt(b.0, c.0) {
        crate::text::lemma_lex_transitive(a.0, b.0, c.0);
    }
}

proof fn lemma_entry_lt_total(a: (Seq<char>, int), b: (Seq<char>, int))
    ensures
        a != b ==> entry_lt(a, b) || entry_lt(b, a),
        !(entry_lt(a, b) && entry_lt(b, a)),
{
    crate::text::lemma_lex_total(a.0, b.0);
    crate::text::lemma_lex_irreflexive(a.0);
}

fn entry_less(a: &(Vec<char>, usize), b: &(Vec<char>, usize)) -> (res: bool)
    ensures
        res == entry_lt((a.0@, a.1 as int), (b.0@, b.1 as int)),
{
    if crate::text::lex_less(&a.0, &b.0) {
        true
    } else {
        crate::text::same_chars(&a.0, &b.0) && a.1 < b.1
    }
}

/// Inserts `x` into the strictly sorted `v` at its place in listing order;
/// `x`'s index is larger than every index already in `v`.
fn insert_sorted(v: &mut Vec<(Vec<char>, usize)>, x: (Vec<char>, usize))
    requires
        strictly_sorted(chars_listing_view(old(v)@)),
        forall|t: int| 0 <= t < old(v)@.len() ==> (#[trigger] old(v)@[t]).1 < x.1,
    ensures
        strictly_sorted(chars_listing_view(final(v)@)),
        forall|y: (Seq<char>, int)| chars_listing_view(final(v)@).contains(y) <==> (
            chars_listing_view(old(v)@).contains(y) || y == (x.0@, x.1 as int)),
        forall|t: int| 0 <= t < final(v)@.len() ==> (#[trigger] final(v)@[t]).1 <= x.1,
{
    let ghost xv = (x.0@, x.1 as int);
    let ghost before = chars_listing_view(v@);
    let mut j: usize = v.len();
    loop
        invariant
            j <= v.len(),
            v@ == old(v)@,
            xv == (x.0@, x.1 as int),
            before == chars_listing_view(v@),
            forall|t: int| j <= t < before.len() ==> entry_lt(xv, #[trigger] before[t]),
            forall|t: int| 0 <= t < v@.len() ==> (#[trigger] v@[t]).1 < x.1,
        ensures
            j <= v.len(),
            v@ == old(v)@,
            xv == (x.0@, x.1 as int),
            forall|t: int| j <= t < before.len() ==> entry_lt(xv, #[trigger] before[t]),
            j == 0 || entry_lt(before[j - 1], xv),
        decreases j,
    {
        if j == 0 {
            break;
        }
        let cur = &v[j - 1];
        assert(before[j - 1] == (cur.0@, cur.1 as int));
        if entry_less(cur, &x) {
            break;
        }
        proof {
            assert(v@[j - 1].1 < x.1);
            lemma_entry_lt_total(before[j - 1], xv);
        }
        j = j - 1;
    }
    proof {
        assert forall|t: int| 0 <= t < j implies entry_lt(#[trigger] before[t], xv) by {
            if t < j - 1 {
                assert(entry_lt(before[t], before[j - 1]));
                lemma_entry_lt_transitive(before[t], before[j - 1], xv);
            }
        }
    }
    v.insert(j, x);
    proof {
        let after = chars_listing_view(v@);
        assert(after =~= before.insert(j as int, xv));
        assert forall|a: int, b: int| 0 <= a < b < after.len() implies entry_lt(
            #[trigger] after[a],
            #[trigger] after[b],
        ) by {
            if b < j {
            } else if b == j {
            } else if a < j {
                lemma_entry_lt_transitive(after[a], xv, after[b]);
            } else if a == j {
            } else {
                assert(after[a] == before[a - 1] && after[b] == before[b - 1]);
            }
        }
        assert forall|y: (Seq<char>, int)| after.contains(y) <==> (before.contains(y) || y == xv) by {
            if after.contains(y) {
                let i = choose|i: int| 0 <= i < after.len() && after[i] == y;
                if i < j {
                    assert(before[i] == y);
                } else if i > j {
                    assert(before[i - 1] == y);
                }
            }
            if before.contains(y) {
                let i = choose|i: int| 0 <= i < before.len() && before[i] == y;
                if i < j {
                    assert(after[i] == y);
                } else {
                    assert(after[i + 1] == y);
                }
            }
            if y == xv {
                assert(after[j as int] == y);
            }
        }
        assert forall|t: int| 0 <= t < v@.len() implies (#[trigger] v@[t]).1 <= x.1 by {
            if t < j {
                assert(v@[t] == old(v)@[t]);
            } else if t > j {
                assert(v@[t] == old(v)@[t - 1]);
            }
        }
    }
}

/// The backups that a directory holding the files `names` offers, listed by
/// original path (a stable sort by path, so backups of one path keep their
/// directory order), keeping only those whose path contains `filter`
/// regardless of case where a non-empty filter is given. Each entry pairs the
/// original path with the index in `names` of its backup file.
pub fn list_backups(names: &Vec<String>, filter: Option<&str>) -> (res: Vec<(String, usize)>)
    ensures
        is_listing_of(listing_view(res@), backup_candidates(names.deep_view(), opt_str_view(filter))),
{
    let ghost all = names.deep_view();
    let ghost fv = opt_str_view(filter);
    let lower_filter: Option<Vec<char>> = match filter {
        Some(f) => {
            let fc = chars_of(f);
            if fc.len() == 0 {
                None
            } else {
                let l = crate::text::to_lowercase(f);
                Some(chars_of(l.as_str()))
            }
        },
        None => None,
    };
    let suffix = bak_suffix_chars();
    let mut sorted: Vec<(Vec<char>, usize)> = Vec::new();
    for k in 0..names.len()
        invariant
            all == names.deep_view(),
            fv == opt_str_view(filter),
            suffix@ == bak_suffix(),
            match lower_filter {
                Some(l) => fv is Some && fv->0.len() > 0 && l@ == lowercase(fv->0),
                None => fv is None || fv->0.len() == 0,
            },
            strictly_sorted(chars_listing_view(sorted@)),
            forall|y: (Seq<char>, int)| chars_listing_view(sorted@).contains(y) <==> backup_candidates(
                all.take(k as int),
                fv,
            ).contains(y),
            forall|t: int| 0 <= t < sorted@.len() ==> (#[trigger] sorted@[t]).1 < k,
    {
        let ghost prev = backup_candidates(all.take(k as int), fv);
        assert(all.take(k + 1).drop_last() == all.take(k as int));
        assert(all.take(k + 1).last() == names[k as int]@);
        let name = chars_of(names[k].as_str());
        let ghost cur = backup_candidates(all.take(k + 1), fv);
        if name.len() > 4 && ends_with(&name, &suffix) {
            if let Some(original) = parse_backup_chars(&name) {
                let ghost ov = original@;
                let keep = match &lower_filter {
                    None => true,
                    Some(l) => {
                        let o = string_of(&original);
                        let lo = crate::text::to_lowercase(o.as_str());
                        let lo_chars = chars_of(lo.as_str());
                        crate::text::contains(&lo_chars, l)
                    },
                };
                assert(keep == passes_filter(ov, fv));
                if keep {
                    let ghost before = chars_listing_view(sorted@);
                    insert_sorted(&mut sorted, (original, k));
                    assert(cur == prev.push((ov, k as int)));
                    assert forall|y: (Seq<char>, int)| chars_listing_view(sorted@).contains(y)
                        <==> cur.contains(y) by {
                        if y == (ov, k as int) {
                            assert(cur[prev.len() as int] == y);
                        }
                        if cur.contains(y) {
                            let i = choose|i: int| 0 <= i < cur.len() && cur[i] == y;
                            if i < prev.len() {
                                assert(prev[i] == y);
                            }
                        }
                        if prev.contains(y) {
                            let i = choose|i: int| 0 <= i < prev.len() && prev[i] == y;
                            assert(cur[i] == y);
                        }
                    }
                } else {
                    assert(cur == prev);
                }
            } else {
                assert(cur == prev);
            }
        } else {
            assert(cur == prev);
        }
    }
    assert(all.take(names.len() as int) == all);
    let mut res: Vec<(String, usize)> = Vec::new();
    for i in 0..sorted.len()
        invariant
            res@.len() == i,
            listing_view(res@) == chars_listing_view(sorted@).take(i as int),
    {
        let s = string_of(&sorted[i].0);
        let ghost old_res = res@;
        res.push((s, sorted[i].1));
        assert(res@ == old_res.push((s, sorted@[i as int].1)));
        assert forall|t: int| 0 <= t < i + 1 implies listing_view(res@)[t] == chars_listing_view(sorted@)[t] by {
            assert(res@[t] == if t < i { old_res[t] } else { (s, sorted@[i as int].1) });
            if t < i {
                assert(listing_view(res@)[t] == listing_view(old_res)[t]);
            }
        }
        assert(listing_view(res@) =~= chars_listing_view(sorted@).take(i + 1));
    }
    assert(chars_listing_view(sorted@).take(sorted.len() as int) == chars_listing_view(sorted@));
    res
}

// ---------------------------------------------------------------------------
// Choosing the DLL inside a ZIP archive
// ---------------------------------------------------------------------------

/// The `zip` crate's error type, carried through without being looked into.
#[verifier::external_type_specification]
#[verifier::external_body]
pub struct ExZipError(zip::result::ZipError);

/// The number of entries in the central directory of the ZIP archive `data`,
/// or `None` where the `zip` crate cannot read `data` as an archive.
pub uninterp spec fn zip_entry_count(data: Seq<u8>) -> Option<nat>;

/// The name of entry `index` of the ZIP archive `data`, or `None` where the
/// `zip` crate fails to open the archive or that entry.
pub uninterp spec fn zip_entry_name(data: Seq<u8>, index: nat) -> Option<Seq<char>>;

/// `zip::ZipArchive::new` over the bytes, then `ZipArchive::len`. The
/// contract claims that the call succeeds exactly where the named count is
/// defined, and then returns it; what makes an archive readable is left
/// unstated.
#[verifier::external_body]
fn zip_len(data: &[u8]) -> (res: Result<usize, zip::result::ZipError>)
    ensures
        match res {
            Ok(n) => zip_entry_count(data@) == Some(n as nat),
            Err(_) => zip_entry_count(data@) is None,
        },
{
    let archive = zip::ZipArchive::new(std::io::Cursor::new(data))?;
    Ok(archive.len())
}

/// `zip::ZipArchive::new` over the bytes, then `ZipArchive::by_index` and
/// `ZipFile::name`. The contract claims that the call succeeds exactly where
/// the named entry name is defined, and then returns it; the archive format
/// is left unstated.
#[verifier::external_body]
fn zip_name(data: &[u8], index: usize) -> (res: Result<String, zip::result::ZipError>)
    ensures
        match res {
            Ok(name) => zip_entry_name(data@, index as nat) == Some(name@),
            Err(_) => zip_entry_name(data@, index as nat) is None,
        },
{
    let mut archive = zip::ZipArchive::new(std::io::Cursor::new(data))?;
    let file = archive.by_index(index)?;
    Ok(file.name().to_string())
}

/// The decompressed contents of entry `index` of the ZIP archive `data`, or
/// `None` where the `zip` crate fails to open the archive or that entry, or
/// to decompress it (a checksum that does not match among the failures).
pub uninterp spec fn zip_entry_bytes(data: Seq<u8>, index: nat) -> Option<Seq<u8>>;

/// `zip::ZipArchive::new` over the bytes, then `ZipArchive::by_index` and
/// `Read::read_to_end` on the entry. The contract claims that the call
/// succeeds exactly where the named contents are defined, and then returns
/// them; the decompression is left unstated.
#[verifier::external_body]
fn zip_entry_data(data: &[u8], index: usize) -> (res: Result<Vec<u8>, zip::result::ZipError>)
    ensures
        match res {
            Ok(bytes) => zip_entry_bytes(data@, index as nat) == Some(bytes@),
            Err(_) => zip_entry_bytes(data@, index as nat) is None,
        },
{
    let mut archive = zip::ZipArchive::new(std::io::Cursor::new(data))?;
    let mut file = archive.by_index(index)?;
    let mut bytes = Vec::new();
    std::io::Read::read_to_end(&mut file, &mut bytes)?;
    Ok(bytes)
}

/// Why no DLL could be taken from an archive.
#[derive(Debug, Clone, Copy, PartialEq, Eq, Structural)]
pub enum ExtractError {
    /// The data is no readable ZIP archive.
    OpenArchive,
    /// An entry met before a matching one could not be read.
    ReadEntry,
    /// No entry holds the DLL.
    NoMatchingDll,
    /// The entry that holds the DLL could not be decompressed.
    ReadData,
}

/// The suffix `.dll`.
pub open spec fn dll_suffix() -> Seq<char> {
    seq!['.', 'd', 'l', 'l']
}

/// The suffix `.dll` as characters.
pub fn dll_suffix_chars() -> (res: Vec<char>)
    ensures
        res@ == dll_suffix(),
{
    let v = vec!['.', 'd', 'l', 'l'];
    assert(v@ == dll_suffix());
    v
}

/// An archive entry called `entry` holds the DLL `dll`: its name ends in
/// `.dll`, and, ignoring case, in the name of the DLL.
pub open spec fn entry_holds_dll(entry: Seq<char>, dll: Seq<char>) -> bool {
    is_suffix(dll_suffix(), entry) && is_suffix(lowercase(dll), lowercase(entry))
}

/// The outcome of examining the entries `i..n` of the archive `data` in
/// order: the first entry that holds `dll`, or the error met first.
pub open spec fn scan_entries(data: Seq<u8>, dll: Seq<char>, i: nat, n: nat) -> Result<nat, ExtractError>
    decreases n - i,
{
    if i >= n {
        Err(ExtractError::NoMatchingDll)
    } else {
        match zip_entry_name(data, i) {
            None => Err(ExtractError::ReadEntry),
            Some(name) => if entry_holds_dll(name, dll) {
                Ok(i)
            } else {
                scan_entries(data, dll, i + 1, n)
            },
        }
    }
}

/// The entry of the archive `data` that holds `dll`: the first matching one,
/// or why there is none.
pub open spec fn spec_find_dll_entry(data: Seq<u8>, dll: Seq<char>) -> Result<nat, ExtractError> {
    match zip_entry_count(data) {
        None => Err(ExtractError::OpenArchive),
        Some(n) => scan_entries(data, dll, 0, n),
    }
}

/// The index of the entry of the ZIP archive `zip_data` that holds the DLL
/// `dll_name`: the first entry, in archive order, whose name ends in `.dll`
/// and, ignoring case, in `dll_name`. An entry that cannot be read before a
/// match is found ends the search with an error.
pub fn find_dll_entry(zip_data: &[u8], dll_name: &str) -> (res: Result<usize, ExtractError>)
    ensures
        match res {
            Ok(i) => spec_find_dll_entry(zip_data@, dll_name@) == Ok::<nat, ExtractError>(i as nat),
            Err(e) => spec_find_dll_entry(zip_data@, dll_name@) == Err::<nat, ExtractError>(e),
        },
{
    let n = match zip_len(zip_data) {
        Ok(n) => n,
        Err(_) => return Err(ExtractError::OpenArchive),
    };
    let lower_dll = crate::text::to_lowercase(dll_name);
    let wanted = chars_of(lower_dll.as_str());
    let suffix = dll_suffix_chars();
    let mut i: usize = 0;
    while i < n
        invariant
            i <= n,
            zip_entry_count(zip_data@) == Some(n as nat),
            wanted@ == lowercase(dll_name@),
            suffix@ == dll_suffix(),
            spec_find_dll_entry(zip_data@, dll_name@) == scan_entries(zip_data@, dll_name@, i as nat, n as nat),
        decreases n - i,
    {
        let name = match zip_name(zip_data, i) {
            Ok(name) => name,
            Err(_) => return Err(ExtractError::ReadEntry),
        };
        let name_chars = chars_of(name.as_str());
        if ends_with(&name_chars, &suffix) {
            let lower_name = crate::text::to_lowercase(name.as_str());
            let lower_chars = chars_of(lower_name.as_str());
            if ends_with(&lower_chars, &wanted) {
                return Ok(i);
            }
        }
        i = i + 1;
    }
    Err(ExtractError::NoMatchingDll)
}

/// The DLL taken from an archive.
pub struct ExtractedDll {
    /// How many entries the archive holds.
    pub entry_count: usize,
    /// The index of the entry that holds the DLL.
    pub index: usize,
    /// The decompressed contents of that entry.
    pub data: Vec<u8>,
}

/// The contents of the DLL `dll` in the archive `data`: those of the entry
/// that `spec_find_dll_entry` chooses, or why there are none.
pub open spec fn spec_extract_dll(data: Seq<u8>, dll: Seq<char>) -> Result<Seq<u8>, ExtractError> {
    match spec_find_dll_entry(data, dll) {
        Err(e) => Err(e),
        Ok(i) => match zip_entry_bytes(data, i) {
            None => Err(ExtractError::ReadData),
            Some(bytes) => Ok(bytes),
        },
    }
}

/// Takes the DLL `dll_name` out of the ZIP archive `zip_data`: the
/// decompressed contents of the entry that `find_dll_entry` chooses,
/// together with that entry's index and the number of entries.
pub fn extract_dll(zip_data: &[u8], dll_name: &str) -> (res: Result<ExtractedDll, ExtractError>)
    ensures
        match res {
            Ok(x) => {
                &&& spec_extract_dll(zip_data@, dll_name@) == Ok::<Seq<u8>, ExtractError>(x.data@)
                &&& spec_find_dll_entry(zip_data@, dll_name@) == Ok::<nat, ExtractError>(x.index as nat)
                &&& zip_entry_count(zip_data@) == Some(x.entry_count as nat)
            },
            Err(e) => spec_extract_dll(zip_data@, dll_name@) == Err::<Seq<u8>, ExtractError>(e),
        },
{
    let index = find_dll_entry(zip_data, dll_name)?;
    let entry_count = match zip_len(zip_data) {
        Ok(n) => n,
        Err(_) => return Err(ExtractError::OpenArchive),
    };
    match zip_entry_data(zip_data, index) {
        Ok(data) => Ok(ExtractedDll { entry_count, index, data }),
        Err(_) => Err(ExtractError::ReadData),
    }
}

// ---------------------------------------------------------------------------
// Choosing the backup to restore
// ---------------------------------------------------------------------------

/// How a restore request goes on, given the backups listed for its filter.
pub enum RestoreChoice {
    /// No backup matches.
    NoBackup,
    /// Restore the listed backup at this position without asking.
    Direct(usize),
    /// Ask which of these original paths to restore (in listing order).
    Ask(Vec<String>),
}

/// A restore request goes on directly where a non-empty name filter leaves
/// exactly one backup, asks among all listed backups where there are more
/// (or no filter was given), and fails where none is listed.
pub fn restore_choice(entries: &Vec<(String, usize)>, filter: &str) -> (res: RestoreChoice)
    ensures
        match res {
            RestoreChoice::NoBackup => entries@.len() == 0,
            RestoreChoice::Direct(k) => entries@.len() == 1 && filter@.len() > 0 && k == 0,
            RestoreChoice::Ask(paths) => {
                &&& entries@.len() > 0
                &&& !(entries@.len() == 1 && filter@.len() > 0)
                &&& paths.deep_view() == listing_view(entries@).map_values(|e: (Seq<char>, int)| e.0)
            },
        },
{
    if entries.len() == 0 {
        return RestoreChoice::NoBackup;
    }
    if entries.len() == 1 && !filter.is_empty() {
        return RestoreChoice::Direct(0);
    }
    let ghost target = listing_view(entries@).map_values(|e: (Seq<char>, int)| e.0);
    let mut paths: Vec<String> = Vec::new();
    for i in 0..entries.len()
        invariant
            target == listing_view(entries@).map_values(|e: (Seq<char>, int)| e.0),
            paths.deep_view() == target.take(i as int),
    {
        let ghost before = paths.deep_view();
        paths.push(entries[i].0.clone());
        assert(target[i as int] == entries@[i as int].0@);
        assert(paths.deep_view() =~= before.push(target[i as int]));
        assert(target.take(i + 1) =~= target.take(i as int).push(target[i as int]));
    }
    assert(target.take(entries.len() as int) =~= target);
    RestoreChoice::Ask(paths)
}

/// The position of the first listed backup of the original path `chosen`,
/// if any.
pub fn find_backup(entries: &Vec<(String, usize)>, chosen: &str) -> (res: Option<usize>)
    ensures
        match res {
            Some(k) => k < entries@.len() && entries@[k as int].0@ == chosen@ && forall|j: int|
                0 <= j < k ==> entries@[j].0@ != chosen@,
            None => forall|j: int| 0 <= j < entries@.len() ==> entries@[j].0@ != chosen@,
        },
{
    let want = chars_of(chosen);
    let mut k: usize = 0;
    while k < entries.len()
        invariant
            k <= entries@.len(),
            want@ == chosen@,
            forall|j: int| 0 <= j < k ==> entries@[j].0@ != chosen@,
        decreases entries.len() - k,
    {
        let have = chars_of(entries[k].0.as_str());
        if crate::text::same_chars(&have, &want) {
            return Some(k);
        }
        k = k + 1;
    }
    None
}

} // verus!
