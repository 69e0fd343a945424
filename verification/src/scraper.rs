//! Reading the pages of the DLL download site: where each architecture's
//! download page is, where the real download link is, and which DLLs a
//! search found; plus the decisions around fetching and installing.

use vstd::prelude::*;

use crate::cli::{Architecture, Config};
use crate::installer::{dll_suffix, dll_suffix_chars};
use crate::text::{
    chars_of, contains, contains_sub, ends_with, equals_str, extend_chars, is_prefix, is_suffix, lex_lt, lowercase,
    remove_all, remove_all_exec, same_chars, string_of, to_lowercase, trim_suffix_all,
    trim_suffix_all_exec,
};

verus! {

/// The site that the DLLs are fetched from.
pub const BASE_URL: &'static str = "https://cn.dll-files.com";

/// One download block of a DLL's page.
pub const SECTION_PATTERN: &'static str = r#"(?s)<section class="file-info-grid".+?</section>"#;

/// The metadata pane of a download block.
pub const META_PATTERN: &'static str = r#"(?s)<div\sclass="right-pane".+?</div>"#;

/// A paragraph of the metadata pane; the second one names the architecture.
pub const ARCH_PATTERN: &'static str = r#"(?s)<p>(?<arch>.+?)</p>"#;

/// The link of a download block to its download page.
pub const LINK_PATTERN: &'static str = r#"(?s)<a href="(?<link>.+?)"\sdata-ga-action"#;

/// The real download link on a download page.
pub const DOWNLOAD_PATTERN: &'static str = r#"downloadUrl\s*=\s*"(?<link>.+?)";"#;

/// A link to a DLL's page among search results.
pub const SEARCH_LINK_PATTERN: &'static str = r#"(?i)<a\s+href="/([a-z0-9_.-]+\.html)"[^>]*>"#;

/// A DLL name in the text of search results.
pub const SEARCH_NAME_PATTERN: &'static str = r#"(?i) ([a-z0-9_.-]+\.dll)"#;

// ---------------------------------------------------------------------------
// Regular expressions (the `regex` crate)
// ---------------------------------------------------------------------------

/// The `regex` crate's error type, carried through without being looked
/// into.
#[verifier::external_type_specification]
#[verifier::external_body]
pub struct ExRegexError(regex::Error);

/// The texts of the successive non-overlapping leftmost-first matches of the
/// regular expression `pattern` in `text`, or `None` where the `regex` crate
/// refuses the pattern.
pub uninterp spec fn regex_match_texts(pattern: Seq<char>, text: Seq<char>) -> Option<Seq<Seq<char>>>;

/// For each successive match of `pattern` in `text`, the text of its first
/// capture group where the group took part in the match; `None` where the
/// `regex` crate refuses the pattern.
pub uninterp spec fn regex_group_texts(pattern: Seq<char>, text: Seq<char>) -> Option<Seq<Option<Seq<char>>>>;

/// `regex::Regex::new`, then `Regex::find_iter`. The contract claims that
/// the call succeeds exactly where the named matches are defined, and then
/// returns them; the matching itself is left unstated.
#[verifier::external_body]
fn regex_find_all(pattern: &str, text: &str) -> (res: Result<Vec<String>, regex::Error>)
    ensures
        match res {
            Ok(v) => regex_match_texts(pattern@, text@) == Some(v.deep_view()),
            Err(_) => regex_match_texts(pattern@, text@) is None,
        },
{
    let re = regex::Regex::new(pattern)?;
    let mut out = Vec::new();
    for m in re.find_iter(text) {
        out.push(m.as_str().to_string());
    }
    Ok(out)
}

/// `regex::Regex::new`, then `Regex::captures_iter` and `Captures::get(1)`.
/// The contract claims that the call succeeds exactly where the named group
/// texts are defined, and then returns them; the matching itself is left
/// unstated.
#[verifier::external_body]
fn regex_first_groups(pattern: &str, text: &str) -> (res: Result<Vec<Option<String>>, regex::Error>)
    ensures
        match res {
            Ok(v) => regex_group_texts(pattern@, text@) == Some(v.deep_view()),
            Err(_) => regex_group_texts(pattern@, text@) is None,
        },
{
    let re = regex::Regex::new(pattern)?;
    let mut out = Vec::new();
    for caps in re.captures_iter(text) {
        out.push(match caps.get(1) {
            Some(m) => Some(m.as_str().to_string()),
            None => None,
        });
    }
    Ok(out)
}

/// Why a page could not be read.
#[derive(Clone, Copy, Debug, PartialEq, Eq, Structural)]
pub enum ScrapeError {
    /// The site answered with its "not found" page.
    PageNotFound,
    /// The `regex` crate refused one of the patterns.
    BadPattern,
    /// The download page holds no download link.
    NoDownloadLink,
}

/// The group texts of the matches whose group took part, in order.
pub open spec fn present_groups(groups: Seq<Option<Seq<char>>>) -> Seq<Seq<char>>
    decreases groups.len(),
{
    if groups.len() == 0 {
        seq![]
    } else {
        let prev = present_groups(groups.drop_last());
        match groups.last() {
            Some(g) => prev.push(g),
            None => prev,
        }
    }
}

/// The characters of each string of a list.
pub open spec fn chars_list_view(v: Seq<Vec<char>>) -> Seq<Seq<char>> {
    v.map_values(|x: Vec<char>| x@)
}

fn present_groups_exec(groups: &Vec<Option<String>>) -> (res: Vec<Vec<char>>)
    ensures
        chars_list_view(res@) == present_groups(groups.deep_view()),
{
    let ghost all = groups.deep_view();
    let mut out: Vec<Vec<char>> = Vec::new();
    for i in 0..groups.len()
        invariant
            all == groups.deep_view(),
            chars_list_view(out@) == present_groups(all.take(i as int)),
    {
        assert(all.take(i + 1).drop_last() == all.take(i as int));
        assert(all.take(i + 1).last() == all[i as int]);
        let ghost before = chars_list_view(out@);
        match &groups[i] {
            Some(g) => {
                out.push(chars_of(g.as_str()));
                assert(chars_list_view(out@) =~= before.push(g@));
            },
            None => {},
        }
    }
    assert(all.take(groups.len() as int) == all);
    out
}

// ---------------------------------------------------------------------------
// The download pages of a DLL
// ---------------------------------------------------------------------------

/// The architecture that a metadata pane names: the text of its second
/// paragraph, or empty where it has fewer than two.
pub open spec fn arch_of(groups: Seq<Option<Seq<char>>>) -> Seq<char> {
    let present = present_groups(groups);
    if present.len() > 1 {
        present[1]
    } else {
        seq![]
    }
}

/// The download pages found in the blocks `i..` of a DLL's page, given the
/// pages found so far for x86 (`x32`) and x64 (`x64`), empty where none was
/// found yet. A block is passed over where it lacks a metadata pane, names
/// no architecture, names one already found, or has no link; the reading
/// stops once both are found.
pub open spec fn scan_sections(sections: Seq<Seq<char>>, i: nat, x32: Seq<char>, x64: Seq<char>) -> Result<
    (Seq<char>, Seq<char>),
    ScrapeError,
>
    decreases sections.len() - i,
{
    if i >= sections.len() || (x32.len() > 0 && x64.len() > 0) {
        Ok((x32, x64))
    } else {
        let section = sections[i as int];
        match regex_match_texts(META_PATTERN@, section) {
            None => Err(ScrapeError::BadPattern),
            Some(metas) => if metas.len() == 0 {
                scan_sections(sections, i + 1, x32, x64)
            } else {
                match regex_group_texts(ARCH_PATTERN@, metas[0]) {
                    None => Err(ScrapeError::BadPattern),
                    Some(groups) => {
                        let arch = arch_of(groups);
                        if arch.len() == 0 || (arch == "32"@ && x32.len() > 0) || (arch == "64"@ && x64.len()
                            > 0) {
                            scan_sections(sections, i + 1, x32, x64)
                        } else {
                            match regex_group_texts(LINK_PATTERN@, section) {
                                None => Err(ScrapeError::BadPattern),
                                Some(links) => if links.len() == 0 || links[0] is None {
                                    scan_sections(sections, i + 1, x32, x64)
                                } else {
                                    let full = BASE_URL@ + links[0]->0;
                                    if arch == "32"@ {
                                        scan_sections(sections, i + 1, full, x64)
                                    } else if arch == "64"@ {
                                        scan_sections(sections, i + 1, x32, full)
                                    } else {
                                        scan_sections(sections, i + 1, x32, x64)
                                    }
                                },
                            }
                        }
                    },
                }
            },
        }
    }
}

/// The download pages that a DLL's page `html` offers for x86 and for x64.
pub open spec fn spec_download_pages(html: Seq<char>) -> Result<(Seq<char>, Seq<char>), ScrapeError> {
    if contains_sub(html, "error-404"@) {
        Err(ScrapeError::PageNotFound)
    } else {
        match regex_match_texts(SECTION_PATTERN@, html) {
            None => Err(ScrapeError::BadPattern),
            Some(sections) => scan_sections(sections, 0, seq![], seq![]),
        }
    }
}

/// The download pages of a DLL, one per architecture; empty where the DLL's
/// page offers none.
pub struct DownloadPages {
    pub x32: String,
    pub x64: String,
}

/// The x86 and x64 download pages that the DLL's page `html` offers: each
/// the site address followed by the link of the first download block whose
/// metadata names that architecture (`32` or `64`). A page that holds
/// `error-404` is the site's "not found" page.
pub fn find_download_pages(html: &str) -> (res: Result<DownloadPages, ScrapeError>)
    ensures
        match res {
            Ok(p) => spec_download_pages(html@) == Ok::<(Seq<char>, Seq<char>), ScrapeError>((p.x32@, p.x64@)),
            Err(e) => spec_download_pages(html@) == Err::<(Seq<char>, Seq<char>), ScrapeError>(e),
        },
{
    let html_chars = chars_of(html);
    let not_found = chars_of("error-404");
    if contains(&html_chars, &not_found) {
        return Err(ScrapeError::PageNotFound);
    }
    let sections = match regex_find_all(SECTION_PATTERN, html) {
        Ok(s) => s,
        Err(_) => return Err(ScrapeError::BadPattern),
    };
    let ghost all = sections.deep_view();
    let base = chars_of(BASE_URL);
    let mut x32: Vec<char> = Vec::new();
    let mut x64: Vec<char> = Vec::new();
    let mut i: usize = 0;
    while i < sections.len()
        invariant
            i <= sections.len(),
            all == sections.deep_view(),
            base@ == BASE_URL@,
            spec_download_pages(html@) == scan_sections(all, i as nat, x32@, x64@),
        ensures
            spec_download_pages(html@) == Ok::<(Seq<char>, Seq<char>), ScrapeError>((x32@, x64@)),
        decreases sections.len() - i,
    {
        if x32.len() > 0 && x64.len() > 0 {
            break;
        }
        let section = &sections[i];
        assert(all[i as int] == section@);
        let metas = match regex_find_all(META_PATTERN, section.as_str()) {
            Ok(m) => m,
            Err(_) => return Err(ScrapeError::BadPattern),
        };
        if metas.len() == 0 {
            i = i + 1;
            continue;
        }
        assert(metas.deep_view()[0] == metas@[0]@);
        let groups = match regex_first_groups(ARCH_PATTERN, metas[0].as_str()) {
            Ok(g) => g,
            Err(_) => return Err(ScrapeError::BadPattern),
        };
        let present = present_groups_exec(&groups);
        let arch: Vec<char> = if present.len() > 1 {
            assert(chars_list_view(present@)[1] == present@[1]@);
            present[1].clone()
        } else {
            Vec::new()
        };
        assert(arch@ == arch_of(groups.deep_view()));
        let is32 = equals_str(&arch, "32");
        let is64 = equals_str(&arch, "64");
        if arch.len() == 0 || (is32 && x32.len() > 0) || (is64 && x64.len() > 0) {
            i = i + 1;
            continue;
        }
        let links = match regex_first_groups(LINK_PATTERN, section.as_str()) {
            Ok(l) => l,
            Err(_) => return Err(ScrapeError::BadPattern),
        };
        if links.len() == 0 {
            i = i + 1;
            continue;
        }
        assert(links.deep_view()[0] == links@[0].deep_view());
        let link = match &links[0] {
            Some(l) => l,
            None => {
                i = i + 1;
                continue;
            },
        };
        let mut full = base.clone();
        let link_chars = chars_of(link.as_str());
        extend_chars(&mut full, &link_chars);
        if is32 {
            x32 = full;
        } else if is64 {
            x64 = full;
        }
        i = i + 1;
    }
    Ok(DownloadPages { x32: string_of(&x32), x64: string_of(&x64) })
}

/// Each download page found is either absent (empty) or an address on the
/// site: it begins with the site address.
pub proof fn lemma_download_pages_on_site(html: Seq<char>)
    ensures
        spec_download_pages(html) matches Ok((x32, x64)) ==> (x32.len() == 0 || is_prefix(BASE_URL@, x32)) && (
        x64.len() == 0 || is_prefix(BASE_URL@, x64)),
{
    if let Some(sections) = regex_match_texts(SECTION_PATTERN@, html) {
        lemma_scan_sections_on_site(sections, 0, seq![], seq![]);
    }
}

proof fn lemma_scan_sections_on_site(sections: Seq<Seq<char>>, i: nat, x32: Seq<char>, x64: Seq<char>)
    requires
        x32.len() == 0 || is_prefix(BASE_URL@, x32),
        x64.len() == 0 || is_prefix(BASE_URL@, x64),
    ensures
        scan_sections(sections, i, x32, x64) matches Ok((a, b)) ==> (a.len() == 0 || is_prefix(BASE_URL@, a)) && (
        b.len() == 0 || is_prefix(BASE_URL@, b)),
    decreases sections.len() - i,
{
    if i < sections.len() && !(x32.len() > 0 && x64.len() > 0) {
        let section = sections[i as int];
        lemma_scan_sections_on_site(sections, i + 1, x32, x64);
        if let Some(links) = regex_group_texts(LINK_PATTERN@, section) {
            if links.len() > 0 && links[0] is Some {
                let full = BASE_URL@ + links[0]->0;
                assert(full.take(BASE_URL@.len() as int) =~= BASE_URL@);
                lemma_scan_sections_on_site(sections, i + 1, full, x64);
                lemma_scan_sections_on_site(sections, i + 1, x32, full);
            }
        }
    }
}

/// A download block offers a download page for the architecture `arch`:
/// it has a metadata pane whose second paragraph is `arch`, and a link.
pub open spec fn offers_page(section: Seq<char>, arch: Seq<char>) -> bool {
    &&& regex_match_texts(META_PATTERN@, section) is Some
    &&& regex_match_texts(META_PATTERN@, section)->0.len() > 0
    &&& regex_group_texts(ARCH_PATTERN@, regex_match_texts(META_PATTERN@, section)->0[0]) is Some
    &&& arch_of(regex_group_texts(ARCH_PATTERN@, regex_match_texts(META_PATTERN@, section)->0[0])->0) == arch
    &&& regex_group_texts(LINK_PATTERN@, section) is Some
    &&& regex_group_texts(LINK_PATTERN@, section)->0.len() > 0
    &&& regex_group_texts(LINK_PATTERN@, section)->0[0] is Some
}

/// The link of a download block.
pub open spec fn page_link(section: Seq<char>) -> Seq<char> {
    regex_group_texts(LINK_PATTERN@, section)->0[0]->0
}

/// `url` is the download page for `arch` among the blocks `sections[..n]`:
/// the site address followed by the link of the first block that offers a
/// page for `arch`, or empty where no block does.
pub open spec fn first_page_among(sections: Seq<Seq<char>>, n: int, arch: Seq<char>, url: Seq<char>) -> bool {
    &&& url.len() > 0 ==> exists|k: int|
        0 <= k < n && offers_page(#[trigger] sections[k], arch) && url == BASE_URL@ + page_link(sections[k])
            && forall|j: int| 0 <= j < k ==> !offers_page(#[trigger] sections[j], arch)
    &&& url.len() == 0 ==> forall|k: int| 0 <= k < n ==> !offers_page(#[trigger] sections[k], arch)
}

proof fn lemma_scan_sections_first(sections: Seq<Seq<char>>, i: nat, x32: Seq<char>, x64: Seq<char>)
    requires
        i <= sections.len(),
        first_page_among(sections, i as int, "32"@, x32),
        first_page_among(sections, i as int, "64"@, x64),
    ensures
        scan_sections(sections, i, x32, x64) matches Ok((a, b)) ==> first_page_among(
            sections,
            sections.len() as int,
            "32"@,
            a,
        ) && first_page_among(sections, sections.len() as int, "64"@, b),
    decreases sections.len() - i,
{
    reveal_strlit("32");
    reveal_strlit("64");
    reveal_strlit("https://cn.dll-files.com");
    let n = sections.len() as int;
    if i >= sections.len() {
    } else if x32.len() > 0 && x64.len() > 0 {
        assert(first_page_among(sections, n, "32"@, x32));
        assert(first_page_among(sections, n, "64"@, x64));
    } else {
        let sec = sections[i as int];
        let t32 = "32"@;
        let t64 = "64"@;
        assert(t32 != t64) by {
            assert(t32[1] != t64[1]);
        }
        if !offers_page(sec, t32) && !offers_page(sec, t64) {
            assert(first_page_among(sections, (i + 1) as int, t32, x32));
            assert(first_page_among(sections, (i + 1) as int, t64, x64));
            lemma_scan_sections_first(sections, i + 1, x32, x64);
        } else {
            let full = BASE_URL@ + page_link(sec);
            assert(full.len() > 0);
            if offers_page(sec, t32) {
                assert(!offers_page(sec, t64));
                if x32.len() == 0 {
                    assert(first_page_among(sections, (i + 1) as int, t32, full));
                    assert(first_page_among(sections, (i + 1) as int, t64, x64));
                    lemma_scan_sections_first(sections, i + 1, full, x64);
                } else {
                    assert(first_page_among(sections, (i + 1) as int, t32, x32));
                    assert(first_page_among(sections, (i + 1) as int, t64, x64));
                    lemma_scan_sections_first(sections, i + 1, x32, x64);
                }
            } else {
                if x64.len() == 0 {
                    assert(first_page_among(sections, (i + 1) as int, t64, full));
                    assert(first_page_among(sections, (i + 1) as int, t32, x32));
                    lemma_scan_sections_first(sections, i + 1, x32, full);
                } else {
                    assert(first_page_among(sections, (i + 1) as int, t32, x32));
                    assert(first_page_among(sections, (i + 1) as int, t64, x64));
                    lemma_scan_sections_first(sections, i + 1, x32, x64);
                }
            }
        }
    }
}

/// The download pages found are the first ones offered: the x86 page is the
/// site address followed by the link of the first download block whose
/// metadata names `32` and that has a link, whatever blocks for `64` come
/// before it, and is empty only where no block offers one; the same holds
/// of the x64 page and `64`.
pub proof fn lemma_download_pages_first_offered(html: Seq<char>)
    ensures
        spec_download_pages(html) matches Ok((x32, x64)) ==> {
            &&& regex_match_texts(SECTION_PATTERN@, html) is Some
            &&& first_page_among(
                regex_match_texts(SECTION_PATTERN@, html)->0,
                regex_match_texts(SECTION_PATTERN@, html)->0.len() as int,
                "32"@,
                x32,
            )
            &&& first_page_among(
                regex_match_texts(SECTION_PATTERN@, html)->0,
                regex_match_texts(SECTION_PATTERN@, html)->0.len() as int,
                "64"@,
                x64,
            )
        },
{
    if let Some(sections) = regex_match_texts(SECTION_PATTERN@, html) {
        lemma_scan_sections_first(sections, 0, seq![], seq![]);
    }
}

// ---------------------------------------------------------------------------
// The download link of a download page
// ---------------------------------------------------------------------------

/// The real download link that a download page `html` holds: the link of
/// the first `downloadUrl = "..."` assignment, with every `amp;` and then
/// every `&#038;` removed.
pub open spec fn spec_download_url(html: Seq<char>) -> Result<Seq<char>, ScrapeError> {
    match regex_group_texts(DOWNLOAD_PATTERN@, html) {
        None => Err(ScrapeError::BadPattern),
        Some(groups) => if groups.len() > 0 && groups[0] is Some {
            Ok(remove_all(remove_all(groups[0]->0, "amp;"@), "&#038;"@))
        } else {
            Err(ScrapeError::NoDownloadLink)
        },
    }
}

/// The real download link that the download page `html` holds (see
/// `spec_download_url`).
pub fn extract_download_url(html: &str) -> (res: Result<String, ScrapeError>)
    ensures
        match res {
            Ok(u) => spec_download_url(html@) == Ok::<Seq<char>, ScrapeError>(u@),
            Err(e) => spec_download_url(html@) == Err::<Seq<char>, ScrapeError>(e),
        },
{
    let groups = match regex_first_groups(DOWNLOAD_PATTERN, html) {
        Ok(g) => g,
        Err(_) => return Err(ScrapeError::BadPattern),
    };
    if groups.len() == 0 {
        return Err(ScrapeError::NoDownloadLink);
    }
    assert(groups.deep_view()[0] == groups@[0].deep_view());
    let link = match &groups[0] {
        Some(l) => l,
        None => return Err(ScrapeError::NoDownloadLink),
    };
    let cs = chars_of(link.as_str());
    let amp = chars_of("amp;");
    let entity = chars_of("&#038;");
    let once = remove_all_exec(&cs, &amp);
    let twice = remove_all_exec(&once, &entity);
    Ok(string_of(&twice))
}

// ---------------------------------------------------------------------------
// Search results
// ---------------------------------------------------------------------------

/// The suffix `.html`.
pub open spec fn html_suffix() -> Seq<char> {
    seq!['.', 'h', 't', 'm', 'l']
}

/// The DLL names that the page links among search results name: each link
/// target with every trailing `.html` removed, where what remains ends in
/// `.dll`.
pub open spec fn linked_dll_names(groups: Seq<Option<Seq<char>>>) -> Set<Seq<char>> {
    Set::new(
        |x: Seq<char>|
            exists|k: int|
                0 <= k < groups.len() && #[trigger] groups[k] is Some && x == trim_suffix_all(
                    groups[k]->0,
                    html_suffix(),
                ) && is_suffix(dll_suffix(), x),
    )
}

/// The DLL names that appear in the text of search results, lowercased.
pub open spec fn mentioned_dll_names(groups: Seq<Option<Seq<char>>>) -> Set<Seq<char>> {
    Set::new(
        |x: Seq<char>|
            exists|k: int| 0 <= k < groups.len() && #[trigger] groups[k] is Some && x == lowercase(groups[k]->0),
    )
}

/// The DLL names that a search results page `html` offers: those of its
/// page links, or, where the links name none, those mentioned in its text.
pub open spec fn spec_search_names(html: Seq<char>) -> Result<Set<Seq<char>>, ScrapeError> {
    match regex_group_texts(SEARCH_LINK_PATTERN@, html) {
        None => Err(ScrapeError::BadPattern),
        Some(links) => if linked_dll_names(links) != Set::<Seq<char>>::empty() {
            Ok(linked_dll_names(links))
        } else {
            match regex_group_texts(SEARCH_NAME_PATTERN@, html) {
                None => Err(ScrapeError::BadPattern),
                Some(names) => Ok(mentioned_dll_names(names)),
            }
        },
    }
}

/// Each name sorts strictly before every later one.
pub open spec fn strictly_sorted_names(v: Seq<Seq<char>>) -> bool {
    forall|i: int, j: int| 0 <= i < j < v.len() ==> lex_lt(#[trigger] v[i], #[trigger] v[j])
}

/// `v` lists the names of `s` exactly once each, in lexicographic order.
pub open spec fn sorted_listing_of(v: Seq<Seq<char>>, s: Set<Seq<char>>) -> bool {
    &&& strictly_sorted_names(v)
    &&& forall|x: Seq<char>| v.contains(x) <==> s.contains(x)
}

/// Adds `x` to the strictly sorted `v` unless it is there already.
fn insert_sorted_unique(v: &mut Vec<Vec<char>>, x: Vec<char>)
    requires
        strictly_sorted_names(chars_list_view(old(v)@)),
    ensures
        strictly_sorted_names(chars_list_view(final(v)@)),
        forall|y: Seq<char>| chars_list_view(final(v)@).contains(y) <==> (chars_list_view(old(v)@).contains(y)
            || y == x@),
{
    let ghost before = chars_list_view(v@);
    let ghost xv = x@;
    let mut j: usize = v.len();
    loop
        invariant
            j <= v.len(),
            v@ == old(v)@,
            xv == x@,
            before == chars_list_view(v@),
            forall|t: int| j <= t < before.len() ==> lex_lt(xv, #[trigger] before[t]),
        ensures
            j <= v.len(),
            v@ == old(v)@,
            xv == x@,
            forall|t: int| j <= t < before.len() ==> lex_lt(xv, #[trigger] before[t]),
            j == 0 || !lex_lt(xv, before[j - 1]),
        decreases j,
    {
        if j == 0 {
            break;
        }
        let cur = &v[j - 1];
        assert(before[j - 1] == cur@);
        if !crate::text::lex_less(&x, cur) {
            break;
        }
        j = j - 1;
    }
    if j > 0 {
        let cur = &v[j - 1];
        assert(before[j - 1] == cur@);
        if same_chars(cur, &x) {
            assert(before.contains(xv));
            return;
        }
        proof {
            crate::text::lemma_lex_total(before[j - 1], xv);
        }
    }
    proof {
        assert forall|t: int| 0 <= t < j implies lex_lt(#[trigger] before[t], xv) by {
            if t < j - 1 {
                assert(lex_lt(before[t], before[j - 1]));
                crate::text::lemma_lex_transitive(before[t], before[j - 1], xv);
            }
        }
    }
    v.insert(j, x);
    proof {
        let after = chars_list_view(v@);
        assert(after =~= before.insert(j as int, xv));
        assert forall|a: int, b: int| 0 <= a < b < after.len() implies lex_lt(
            #[trigger] after[a],
            #[trigger] after[b],
        ) by {
            if b < j {
            } else if b == j {
            } else if a < j {
                crate::text::lemma_lex_transitive(after[a], xv, after[b]);
            } else if a == j {
            } else {
                assert(after[a] == before[a - 1] && after[b] == before[b - 1]);
            }
        }
        assert forall|y: Seq<char>| after.contains(y) <==> (before.contains(y) || y == xv) by {
            if after.contains(y) {
                let i = choose|i: int| 0 <= i < after.len() && after[i] == y;
                if i < j {
                    assert(before[i] == y);
                } else if i > j {
                    assert(before[i - 1] == y);
                }
            }
            if before.contains(y) {
                let i = choose|i: int| 0 <= i < before.len() && before[i] == y;
                if i < j {
                    assert(after[i] == y);
                } else {
                    assert(after[i + 1] == y);
                }
            }
            if y == xv {
                assert(after[j as int] == y);
            }
        }
    }
}

/// The DLL names that the search results page `html` offers (see
/// `spec_search_names`), each once, in lexicographic order.
pub fn search_results(html: &str) -> (res: Result<Vec<String>, ScrapeError>)
    ensures
        match res {
            Ok(v) => spec_search_names(html@) matches Ok(s) && sorted_listing_of(v.deep_view(), s),
            Err(e) => spec_search_names(html@) == Err::<Set<Seq<char>>, ScrapeError>(e),
        },
{
    let links = match regex_first_groups(SEARCH_LINK_PATTERN, html) {
        Ok(g) => g,
        Err(_) => return Err(ScrapeError::BadPattern),
    };
    let ghost lv = links.deep_view();
    let html_sfx = vec!['.', 'h', 't', 'm', 'l'];
    assert(html_sfx@ == html_suffix());
    let dll_sfx = dll_suffix_chars();
    let mut found: Vec<Vec<char>> = Vec::new();
    for k in 0..links.len()
        invariant
            lv == links.deep_view(),
            html_sfx@ == html_suffix(),
            dll_sfx@ == dll_suffix(),
            strictly_sorted_names(chars_list_view(found@)),
            forall|x: Seq<char>| chars_list_view(found@).contains(x) <==> (exists|t: int|
                0 <= t < k && #[trigger] lv[t] is Some && x == trim_suffix_all(lv[t]->0, html_suffix())
                    && is_suffix(dll_suffix(), x)),
    {
        let ghost before = chars_list_view(found@);
        match &links[k] {
            Some(target) => {
                let cs = chars_of(target.as_str());
                let name = trim_suffix_all_exec(&cs, &html_sfx);
                let ghost nv = name@;
                if ends_with(&name, &dll_sfx) {
                    insert_sorted_unique(&mut found, name);
                    assert forall|x: Seq<char>| chars_list_view(found@).contains(x) <==> (exists|t: int|
                        0 <= t < k + 1 && #[trigger] lv[t] is Some && x == trim_suffix_all(
                            lv[t]->0,
                            html_suffix(),
                        ) && is_suffix(dll_suffix(), x)) by {
                        if x == nv {
                            assert(lv[k as int] is Some);
                        }
                    }
                } else {
                    assert forall|x: Seq<char>| chars_list_view(found@).contains(x) <==> (exists|t: int|
                        0 <= t < k + 1 && #[trigger] lv[t] is Some && x == trim_suffix_all(
                            lv[t]->0,
                            html_suffix(),
                        ) && is_suffix(dll_suffix(), x)) by {
                        if exists|t: int|
                            0 <= t < k + 1 && #[trigger] lv[t] is Some && x == trim_suffix_all(
                                lv[t]->0,
                                html_suffix(),
                            ) && is_suffix(dll_suffix(), x) {
                            let t = choose|t: int|
                                0 <= t < k + 1 && #[trigger] lv[t] is Some && x == trim_suffix_all(
                                    lv[t]->0,
                                    html_suffix(),
                                ) && is_suffix(dll_suffix(), x);
                            assert(t != k);
                        }
                    }
                }
            },
            None => {
                assert forall|x: Seq<char>| chars_list_view(found@).contains(x) <==> (exists|t: int|
                    0 <= t < k + 1 && #[trigger] lv[t] is Some && x == trim_suffix_all(lv[t]->0, html_suffix())
                        && is_suffix(dll_suffix(), x)) by {
                    if exists|t: int|
                        0 <= t < k + 1 && #[trigger] lv[t] is Some && x == trim_suffix_all(
                            lv[t]->0,
                            html_suffix(),
                        ) && is_suffix(dll_suffix(), x) {
                        let t = choose|t: int|
                            0 <= t < k + 1 && #[trigger] lv[t] is Some && x == trim_suffix_all(
                                lv[t]->0,
                                html_suffix(),
                            ) && is_suffix(dll_suffix(), x);
                        assert(t != k);
                    }
                }
            },
        }
    }
    let ghost s1 = linked_dll_names(lv);
    assert(forall|x: Seq<char>| chars_list_view(found@).contains(x) <==> s1.contains(x));
    let ghost mut offered = s1;
    if found.len() == 0 {
        assert(s1 =~= Set::<Seq<char>>::empty());
        let names = match regex_first_groups(SEARCH_NAME_PATTERN, html) {
            Ok(g) => g,
            Err(_) => return Err(ScrapeError::BadPattern),
        };
        let ghost nv = names.deep_view();
        for k in 0..names.len()
            invariant
                nv == names.deep_view(),
                strictly_sorted_names(chars_list_view(found@)),
                forall|x: Seq<char>| chars_list_view(found@).contains(x) <==> (exists|t: int|
                    0 <= t < k && #[trigger] nv[t] is Some && x == lowercase(nv[t]->0)),
        {
            match &names[k] {
                Some(n) => {
                    let lower = to_lowercase(n.as_str());
                    let lc = chars_of(lower.as_str());
                    insert_sorted_unique(&mut found, lc);
                    assert forall|x: Seq<char>| chars_list_view(found@).contains(x) <==> (exists|t: int|
                        0 <= t < k + 1 && #[trigger] nv[t] is Some && x == lowercase(nv[t]->0)) by {
                        if x == lowercase(nv[k as int]->0) {
                            assert(nv[k as int] is Some);
                        }
                    }
                },
                None => {
                    assert forall|x: Seq<char>| chars_list_view(found@).contains(x) <==> (exists|t: int|
                        0 <= t < k + 1 && #[trigger] nv[t] is Some && x == lowercase(nv[t]->0)) by {
                        if exists|t: int| 0 <= t < k + 1 && #[trigger] nv[t] is Some && x == lowercase(nv[t]->0) {
                            let t = choose|t: int|
                                0 <= t < k + 1 && #[trigger] nv[t] is Some && x == lowercase(nv[t]->0);
                            assert(t != k);
                        }
                    }
                },
            }
        }
        assert(forall|x: Seq<char>| chars_list_view(found@).contains(x) <==> mentioned_dll_names(nv).contains(x));
        proof {
            offered = mentioned_dll_names(nv);
        }
        assert(regex_group_texts(SEARCH_LINK_PATTERN@, html@) == Some(lv));
        assert(regex_group_texts(SEARCH_NAME_PATTERN@, html@) == Some(nv));
        assert(spec_search_names(html@) == Ok::<Set<Seq<char>>, ScrapeError>(offered));
    } else {
        assert(s1.contains(chars_list_view(found@)[0]));
        assert(spec_search_names(html@) == Ok::<Set<Seq<char>>, ScrapeError>(offered));
    }
    assert(sorted_listing_of(chars_list_view(found@), offered));
    let mut out: Vec<String> = Vec::new();
    for i in 0..found.len()
        invariant
            out@.len() == i,
            out.deep_view() == chars_list_view(found@).take(i as int),
    {
        let ghost old_out = out@;
        let ghost old_dv = out.deep_view();
        out.push(string_of(&found[i]));
        assert(out.deep_view() =~= chars_list_view(found@).take(i + 1)) by {
            assert forall|t: int| 0 <= t < i + 1 implies out.deep_view()[t] == chars_list_view(found@)[t] by {
                assert(out.deep_view()[t] == out@[t]@);
                if t < i {
                    assert(out@[t] == old_out[t]);
                    assert(old_dv[t] == old_out[t]@);
                }
            }
        }
    }
    assert(chars_list_view(found@).take(found.len() as int) == chars_list_view(found@));
    assert(out.deep_view() == chars_list_view(found@));
    Ok(out)
}

/// Where no page link of a search results page names a DLL (no link target,
/// with its trailing `.html` removed, ends in `.dll`), the results are
/// exactly the lowercased DLL names mentioned in the page's text, whatever
/// other links the page holds.
pub proof fn lemma_search_falls_back_to_text(
    html: Seq<char>,
    links: Seq<Option<Seq<char>>>,
    names: Seq<Option<Seq<char>>>,
)
    requires
        regex_group_texts(SEARCH_LINK_PATTERN@, html) == Some(links),
        regex_group_texts(SEARCH_NAME_PATTERN@, html) == Some(names),
        forall|k: int|
            0 <= k < links.len() && #[trigger] links[k] is Some ==> !is_suffix(
                dll_suffix(),
                trim_suffix_all(links[k]->0, html_suffix()),
            ),
    ensures
        spec_search_names(html) is Ok,
        forall|x: Seq<char>|
            #[trigger] spec_search_names(html)->Ok_0.contains(x) <==> exists|k: int|
                0 <= k < names.len() && #[trigger] names[k] is Some && x == lowercase(names[k]->0),
{
    assert(linked_dll_names(links) =~= Set::<Seq<char>>::empty());
}

/// Where some page link of a search results page names a DLL, the results
/// are exactly the DLL names that the page links name (each link target
/// with its trailing `.html` removed, where it ends in `.dll`), whatever
/// the page's text mentions.
pub proof fn lemma_search_prefers_links(html: Seq<char>, links: Seq<Option<Seq<char>>>, k: int)
    requires
        regex_group_texts(SEARCH_LINK_PATTERN@, html) == Some(links),
        0 <= k < links.len(),
        links[k] is Some,
        is_suffix(dll_suffix(), trim_suffix_all(links[k]->0, html_suffix())),
    ensures
        spec_search_names(html) is Ok,
        forall|x: Seq<char>|
            #[trigger] spec_search_names(html)->Ok_0.contains(x) <==> exists|j: int|
                0 <= j < links.len() && #[trigger] links[j] is Some && x == trim_suffix_all(
                    links[j]->0,
                    html_suffix(),
                ) && is_suffix(dll_suffix(), x),
{
    assert(linked_dll_names(links).contains(trim_suffix_all(links[k]->0, html_suffix())));
    assert(linked_dll_names(links) != Set::<Seq<char>>::empty());
}

// ---------------------------------------------------------------------------
// Retrying requests
// ---------------------------------------------------------------------------

/// How many times a failed request is repeated.
pub const MAX_RETRIES: u32 = 3;

/// The pause before attempt `attempt` (counting from 0): none before attempt
/// 0, which is made at once, 500 ms before attempt 1, doubling for every
/// later attempt.
pub open spec fn retry_delay_ms(attempt: nat) -> nat
    decreases attempt,
{
    if attempt == 0 {
        0
    } else if attempt == 1 {
        500
    } else {
        2 * retry_delay_ms((attempt - 1) as nat)
    }
}

/// What to do after a request attempt failed.
#[derive(Clone, Copy, Debug, PartialEq, Eq, Structural)]
pub enum RetryStep {
    /// Wait `delay_ms` milliseconds, then make attempt `attempt`.
    Retry { attempt: u32, delay_ms: u64 },
    /// Give up and report the last failure.
    GiveUp,
}

/// The step after attempt `attempt` (counting from 0) failed: another
/// attempt, after a pause that doubles each time, as long as fewer than
/// `MAX_RETRIES` retries were made; otherwise giving up. So a request is
/// made at most `MAX_RETRIES + 1` times.
pub fn after_failed_attempt(attempt: u32) -> (res: RetryStep)
    ensures
        match res {
            RetryStep::Retry { attempt: next, delay_ms } => {
                &&& attempt < MAX_RETRIES
                &&& next == attempt + 1
                &&& delay_ms == retry_delay_ms(next as nat)
            },
            RetryStep::GiveUp => attempt >= MAX_RETRIES,
        },
{
    if attempt >= MAX_RETRIES {
        return RetryStep::GiveUp;
    }
    let next = attempt + 1;
    let mut delay: u64 = 500;
    let mut k: u32 = 1;
    while k < next
        invariant
            1 <= k <= next <= MAX_RETRIES,
            delay == retry_delay_ms(k as nat),
        decreases next - k,
    {
        assert(delay <= 1000) by {
            reveal_with_fuel(retry_delay_ms, 3);
        }
        delay = delay * 2;
        k = k + 1;
    }
    RetryStep::Retry { attempt: next, delay_ms: delay }
}

// ---------------------------------------------------------------------------
// Installing one DLL
// ---------------------------------------------------------------------------

/// A DLL to install, with the settings of the run.
pub struct Dll<'a> {
    pub name: String,
    pub config: &'a Config,
}

/// What to do with a downloaded DLL once its destination is known.
#[derive(Clone, Copy, Debug, PartialEq, Eq, Structural)]
pub enum InstallAction {
    /// Keep the file that is already there.
    SkipExisting,
    /// Write the DLL, first moving the file that is there to a backup where
    /// `backup_first` holds.
    Install { backup_first: bool },
}

/// The system directory that the settings name for an architecture.
pub open spec fn arch_dir(arch: Architecture, config: Config) -> Seq<char> {
    match arch {
        Architecture::X32 => config.syswow64_path@,
        Architecture::X64 => config.system32_path@,
    }
}

impl<'a> Dll<'a> {
    /// A DLL called `name`, installed with the settings `config`.
    pub fn new(name: String, config: &'a Config) -> (res: Dll<'a>)
        ensures
            res.name == name,
            res.config == config,
    {
        Dll { name, config }
    }

    /// Where the DLL of architecture `arch` goes: into the output directory
    /// where one is set, else into that architecture's system directory.
    pub fn destination(&self, arch: Architecture) -> (res: String)
        ensures
            res@ == (match self.config.output_dir {
                Some(out) => out@,
                None => arch_dir(arch, *self.config),
            }) + self.name@,
    {
        let dir: Vec<char> = match &self.config.output_dir {
            Some(out) => chars_of(out.as_str()),
            None => chars_of(arch.path(self.config)),
        };
        let mut full = dir;
        let name = chars_of(self.name.as_str());
        extend_chars(&mut full, &name);
        string_of(&full)
    }

    /// What to do given whether the destination file exists already: an
    /// existing file in a system directory is kept unless the run forces
    /// installation; a forced installation over an existing file first backs
    /// it up; into an output directory the DLL is always written.
    pub fn install_action(&self, dest_exists: bool) -> (res: InstallAction)
        ensures
            res == (if !self.config.force && self.config.output_dir is None && dest_exists {
                InstallAction::SkipExisting
            } else {
                InstallAction::Install { backup_first: dest_exists && self.config.force }
            }),
    {
        if !self.config.force && self.config.output_dir.is_none() && dest_exists {
            InstallAction::SkipExisting
        } else {
            InstallAction::Install { backup_first: dest_exists && self.config.force }
        }
    }
}

} // verus!
