//! Distro images of images.linuxcontainers.org: reading the server's Apache
//! file listings (through `scraper` and `chrono`) and choosing the distro,
//! the version and the newest build.

use vstd::prelude::*;
use crate::distro_image::{DefaultChoice, DefaultImageFetcher, DistroImage, DistroImageFile};
use crate::text::{extend_str, seq_to_string, str_eq, str_to_chars, trim_end_str, trimmed_end};

verus! {

// ---------------------------------------------------------------------------
// Trusted items: HTML selection and date parsing.
// ---------------------------------------------------------------------------

#[verifier::external_type_specification]
#[verifier::external_body]
pub struct ExSelector(scraper::Selector);

/// Whether `scraper::Selector::parse` accepts the selector.
pub uninterp spec fn selector_valid(selector: Seq<char>) -> bool;

/// What `scraper::Html::select` picks from the document parsed from `doc`
/// with `selector`: for each element, in document order, its first text node
/// and the value of its attribute `attr`.
pub uninterp spec fn html_select(doc: Seq<char>, selector: Seq<char>, attr: Seq<char>) -> Seq<(Option<Seq<char>>, Option<Seq<char>>)>;

/// The seconds since 1970 of the date and time that
/// `chrono::NaiveDateTime::parse_from_str` reads from `text` in the format
/// `fmt`; `None` when it refuses the text.
pub uninterp spec fn datetime_seconds(text: Seq<char>, fmt: Seq<char>) -> Option<i64>;

/// An HTML document, held as its text; each selection parses it.
pub struct HtmlDocument {
    source: String,
}

/// A CSS selector that scraper accepts, held as its text; each selection
/// parses it.
pub struct CssSelector {
    source: String,
}

/// `scraper::Selector::parse`; the contract claims that the outcome depends
/// on the selector alone.
#[verifier::external_body]
fn parse_css_selector(text: &str) -> (r: Option<scraper::Selector>)
    ensures
        r is Some <==> selector_valid(text@),
{
    scraper::Selector::parse(text).ok()
}

/// The text of an optional string.
pub open spec fn opt_text(o: Option<String>) -> Option<Seq<char>> {
    match o {
        Some(s) => Some(s@),
        None => None,
    }
}

/// `scraper::Html::select` on the document parsed from `doc`
/// (`Html::parse_document`) with the selector parsed from `selector`
/// (`Selector::parse`), each element handed out as its first text node and
/// the value of its attribute `attr`.
#[verifier::external_body]
fn select_elements(doc: &str, selector: &str, attr: &str) -> (r: Vec<(Option<String>, Option<String>)>)
    requires
        selector_valid(selector@),
    ensures
        r@.map_values(|e: (Option<String>, Option<String>)| (opt_text(e.0), opt_text(e.1))) == html_select(
            doc@,
            selector@,
            attr@,
        ),
{
    match scraper::Selector::parse(selector) {
        Ok(sel) => scraper::Html::parse_document(doc)
            .select(&sel)
            .map(|e| (e.text().next().map(str::to_owned), e.value().attr(attr).map(str::to_owned)))
            .collect(),
        Err(_) => Vec::new(),
    }
}

/// `chrono::NaiveDateTime::parse_from_str`, the date handed out as seconds
/// since 1970 (`and_utc().timestamp()`), which orders dates as they are ordered.
#[verifier::external_body]
fn parse_datetime(text: &str, fmt: &str) -> (r: Option<i64>)
    ensures
        r == datetime_seconds(text@, fmt@),
{
    chrono::NaiveDateTime::parse_from_str(text, fmt).ok().map(|t| t.and_utc().timestamp())
}

impl HtmlDocument {
    /// The text the document was parsed from.
    pub closed spec fn source(&self) -> Seq<char> {
        self.source@
    }

    /// The HTML document whose text is `text`.
    pub fn parse(text: &str) -> (r: HtmlDocument)
        ensures
            r.source() == text@,
    {
        HtmlDocument { source: text.to_owned() }
    }

    /// The first text node and the attribute `attr` of each element picked by `sel`.
    pub fn select(&self, sel: &CssSelector, attr: &str) -> (r: Vec<(Option<String>, Option<String>)>)
        ensures
            r@.map_values(|e: (Option<String>, Option<String>)| (opt_text(e.0), opt_text(e.1)))
                == html_select(self.source(), sel.source(), attr@),
    {
        proof {
            use_type_invariant(sel);
        }
        select_elements(self.source.as_str(), sel.source.as_str(), attr)
    }
}

impl CssSelector {
    /// The text the selector was parsed from.
    pub closed spec fn source(&self) -> Seq<char> {
        self.source@
    }

    /// Scraper accepts the selector.
    #[verifier::type_invariant]
    closed spec fn parses(self) -> bool {
        selector_valid(self.source@)
    }

    /// Parses a CSS selector; `None` when scraper refuses it.
    pub fn parse(text: &str) -> (r: Option<CssSelector>)
        ensures
            r is Some <==> selector_valid(text@),
            r matches Some(s) ==> s.source() == text@,
    {
        match parse_css_selector(text) {
            Some(_) => Some(CssSelector { source: text.to_owned() }),
            None => None,
        }
    }
}

// ---------------------------------------------------------------------------
// The Apache file listing.
// ---------------------------------------------------------------------------

/// A file of an Apache listing: its name, its link, and when it was last
/// modified (seconds since 1970).
#[derive(Debug, Clone)]
pub struct FileOnApache {
    pub name: String,
    pub url: String,
    pub last_modified: i64,
}

/// The abstract content of a listed file.
pub struct FileModel {
    pub name: Seq<char>,
    pub url: Seq<char>,
    pub last_modified: i64,
}

impl View for FileOnApache {
    type V = FileModel;

    open spec fn view(&self) -> FileModel {
        FileModel { name: self.name@, url: self.url@, last_modified: self.last_modified }
    }
}

/// Why a listing could not be read.
#[derive(Debug, Clone, Copy, PartialEq, Eq)]
pub enum ListingError {
    /// A link has no text.
    NoText,
    /// A link has no `href`.
    NoHref,
    /// The date cell of a link has no text.
    NoDate,
    /// The date of a link is not `%Y-%m-%d %H:%M`.
    InvalidDate,
    /// The listing has no file.
    NotAvailable,
    /// The listing has fewer date cells than links.
    MissingDateCell,
    /// A selector of the listing is refused.
    InvalidSelector,
}

/// `s` without every trailing `c` (`str::trim_end_matches` with a char).
pub open spec fn trim_end_char(s: Seq<char>, c: char) -> Seq<char>
    decreases s.len(),
{
    if s.len() > 0 && s.last() == c {
        trim_end_char(s.drop_last(), c)
    } else {
        s
    }
}

/// `s` without every leading `p` (`str::trim_start_matches` with a nonempty str).
pub open spec fn trim_start_seq(s: Seq<char>, p: Seq<char>) -> Seq<char>
    decreases s.len(),
{
    if p.len() > 0 && p.len() <= s.len() && s.take(p.len() as int) == p {
        trim_start_seq(s.skip(p.len() as int), p)
    } else {
        s
    }
}

/// The format of the dates of a listing.
pub open spec fn listing_date_format() -> Seq<char> {
    "%Y-%m-%d %H:%M"@
}

/// The file of the link at `k` (the first link, to the parent directory,
/// being skipped) with the date cell at `k`.
pub open spec fn listed_file(link: (Option<Seq<char>>, Option<Seq<char>>), date: Option<Seq<char>>) -> Result<FileModel, ListingError> {
    match link.0 {
        None => Err(ListingError::NoText),
        Some(text) => match link.1 {
            None => Err(ListingError::NoHref),
            Some(href) => match date {
                None => Err(ListingError::NoDate),
                Some(d) => match datetime_seconds(trimmed_end(d), listing_date_format()) {
                    None => Err(ListingError::InvalidDate),
                    Some(t) => Ok(
                        FileModel {
                            name: trim_end_char(text, '/'),
                            url: trim_start_seq(href, "./"@),
                            last_modified: t,
                        },
                    ),
                },
            },
        },
    }
}

/// The files of the links `1..n`, each with the date cell of the same
/// index; the first link that cannot be read is the error.
pub open spec fn listed_files(
    links: Seq<(Option<Seq<char>>, Option<Seq<char>>)>,
    dates: Seq<Option<Seq<char>>>,
    n: int,
) -> Result<Seq<FileModel>, ListingError>
    decreases n,
{
    if n <= 1 {
        Ok(Seq::empty())
    } else {
        match listed_files(links, dates, n - 1) {
            Err(e) => Err(e),
            Ok(fs) => match listed_file(links[n - 1], dates[n - 1]) {
                Err(e) => Err(e),
                Ok(f) => Ok(fs.push(f)),
            },
        }
    }
}

/// The files of a listing, given its links and date cells; an empty listing
/// is not available.
pub open spec fn listing_files(
    links: Seq<(Option<Seq<char>>, Option<Seq<char>>)>,
    dates: Seq<Option<Seq<char>>>,
) -> Result<Seq<FileModel>, ListingError> {
    match listed_files(links, dates, links.len() as int) {
        Err(e) => Err(e),
        Ok(fs) => if fs.len() == 0 {
            Err(ListingError::NotAvailable)
        } else {
            Ok(fs)
        },
    }
}

/// Once a link cannot be read, the listing stays in error with it.
pub proof fn lemma_listing_error_stays(
    links: Seq<(Option<Seq<char>>, Option<Seq<char>>)>,
    dates: Seq<Option<Seq<char>>>,
    m: int,
    n: int,
)
    requires
        1 <= m <= n,
        listed_files(links, dates, m) is Err,
    ensures
        listed_files(links, dates, n) == listed_files(links, dates, m),
    decreases n - m,
{
    if n > m {
        lemma_listing_error_stays(links, dates, m, n - 1);
    }
}

/// `s` without every trailing `c`.
fn trim_end_char_exec(s: &str, c: char) -> (r: String)
    ensures
        r@ == trim_end_char(s@, c),
{
    let v = str_to_chars(s);
    let mut n = v.len();
    assert(v@.take(n as int) =~= v@);
    while n > 0 && v[n - 1] == c
        invariant
            n <= v.len(),
            v@ == s@,
            trim_end_char(s@, c) == trim_end_char(v@.take(n as int), c),
        decreases n,
    {
        assert(v@.take(n as int).drop_last() =~= v@.take(n - 1));
        n = n - 1;
    }
    let mut out: Vec<char> = Vec::new();
    let mut i: usize = 0;
    while i < n
        invariant
            i <= n <= v.len(),
            out@ == v@.take(i as int),
        decreases n - i,
    {
        out.push(v[i]);
        assert(out@ =~= v@.take(i + 1));
        i = i + 1;
    }
    seq_to_string(&out)
}

/// `s` without every leading `./`.
fn trim_start_dot_slash(s: &str) -> (r: String)
    ensures
        r@ == trim_start_seq(s@, "./"@),
{
    let v = str_to_chars(s);
    let p = str_to_chars("./");
    proof {
        reveal_strlit("./");
    }
    let mut i: usize = 0;
    assert(v@.skip(0) =~= v@);
    while v.len() - i >= 2 && v[i] == '.' && v[i + 1] == '/'
        invariant
            i <= v.len(),
            v@ == s@,
            p@ == "./"@,
            p@ == seq!['.', '/'],
            trim_start_seq(s@, "./"@) == trim_start_seq(v@.skip(i as int), "./"@),
        decreases v.len() - i,
    {
        assert(v@.skip(i as int).take(2) =~= seq![v[i as int], v[i + 1]]);
        assert(v@.skip(i as int).skip(2) =~= v@.skip(i + 2));
        i = i + 2;
    }
    proof {
        let rest = v@.skip(i as int);
        if 2 <= rest.len() && rest.take(2) == p@ {
            assert(rest[0] == rest.take(2)[0]);
            assert(rest[1] == rest.take(2)[1]);
        }
    }
    let mut out: Vec<char> = Vec::new();
    let mut k = i;
    while k < v.len()
        invariant
            i <= k <= v.len(),
            out@ == v@.subrange(i as int, k as int),
        decreases v.len() - k,
    {
        out.push(v[k]);
        assert(out@ =~= v@.subrange(i as int, k + 1));
        k = k + 1;
    }
    assert(out@ =~= v@.skip(i as int));
    seq_to_string(&out)
}

/// The files of a listing, given its links and date cells (the first link,
/// to the parent directory, skipped). There must be a date cell for each link.
pub fn files_from_listing(
    links: &Vec<(Option<String>, Option<String>)>,
    dates: &Vec<(Option<String>, Option<String>)>,
) -> (r: Result<Vec<FileOnApache>, ListingError>)
    requires
        links.len() <= dates.len(),
    ensures
        match listing_files(
            links@.map_values(|e: (Option<String>, Option<String>)| (opt_text(e.0), opt_text(e.1))),
            dates@.map_values(|e: (Option<String>, Option<String>)| opt_text(e.0)),
        ) {
            Ok(fs) => (r matches Ok(v) && v@.map_values(|f: FileOnApache| f@) == fs),
            Err(e) => (r matches Err(e2) && e2 == e),
        },
{
    let ghost lv = links@.map_values(|e: (Option<String>, Option<String>)| (opt_text(e.0), opt_text(e.1)));
    let ghost dv = dates@.map_values(|e: (Option<String>, Option<String>)| opt_text(e.0));
    let mut files: Vec<FileOnApache> = Vec::new();
    let mut k: usize = 1;
    assert(files@.map_values(|f: FileOnApache| f@) =~= Seq::<FileModel>::empty());
    if links.len() > 1 {
        while k < links.len()
            invariant
                1 <= k <= links.len(),
                links.len() <= dates.len(),
                lv == links@.map_values(|e: (Option<String>, Option<String>)| (opt_text(e.0), opt_text(e.1))),
                dv == dates@.map_values(|e: (Option<String>, Option<String>)| opt_text(e.0)),
                listed_files(lv, dv, k as int) == Ok::<Seq<FileModel>, ListingError>(files@.map_values(|f: FileOnApache| f@)),
            decreases links.len() - k,
        {
            assert(lv[k as int] == (opt_text(links@[k as int].0), opt_text(links@[k as int].1)));
            assert(dv[k as int] == opt_text(dates@[k as int].0));
            let text = match &links[k].0 {
                None => {
                    proof {
                        lemma_listing_error_stays(lv, dv, k + 1, links.len() as int);
                    }
                    return Err(ListingError::NoText);
                },
                Some(t) => t,
            };
            let href = match &links[k].1 {
                None => {
                    proof {
                        lemma_listing_error_stays(lv, dv, k + 1, links.len() as int);
                    }
                    return Err(ListingError::NoHref);
                },
                Some(h) => h,
            };
            let date = match &dates[k].0 {
                None => {
                    proof {
                        lemma_listing_error_stays(lv, dv, k + 1, links.len() as int);
                    }
                    return Err(ListingError::NoDate);
                },
                Some(d) => d,
            };
            let last_modified = match parse_datetime(trim_end_str(date.as_str()), "%Y-%m-%d %H:%M") {
                None => {
                    proof {
                        lemma_listing_error_stays(lv, dv, k + 1, links.len() as int);
                    }
                    return Err(ListingError::InvalidDate);
                },
                Some(t) => t,
            };
            let name = trim_end_char_exec(text.as_str(), '/');
            let url = trim_start_dot_slash(href.as_str());
            let ghost prev = files@.map_values(|f: FileOnApache| f@);
            files.push(FileOnApache { name, url, last_modified });
            assert(files@.map_values(|f: FileOnApache| f@) =~= prev.push(files@.last()@));
            k = k + 1;
        }
    }
    assert(listed_files(lv, dv, links.len() as int) == Ok::<Seq<FileModel>, ListingError>(files@.map_values(|f: FileOnApache| f@)));
    if files.len() == 0 {
        return Err(ListingError::NotAvailable);
    }
    Ok(files)
}

/// The cells of the listing that hold the modification dates.
pub open spec fn date_selector() -> Seq<char> {
    "body > table > tbody > tr > td:nth-child(3)"@
}

/// The links of the listing.
pub open spec fn link_selector() -> Seq<char> {
    "body > table > tbody > tr > td:nth-child(2) > a"@
}

/// The files of the Apache listing page `body`. A page with fewer date
/// cells than links is refused (`MissingDateCell`), where reading the date
/// of a link would have no cell to read.
pub fn parse_apache_file_list(body: &str) -> (r: Result<Vec<FileOnApache>, ListingError>)
    ensures
        !selector_valid(date_selector()) || !selector_valid(link_selector()) ==> r == Err::<Vec<FileOnApache>, ListingError>(ListingError::InvalidSelector),
        selector_valid(date_selector()) && selector_valid(link_selector()) ==> {
            let links = html_select(body@, link_selector(), "href"@);
            let dates = html_select(body@, date_selector(), "href"@);
            if links.len() > dates.len() {
                r == Err::<Vec<FileOnApache>, ListingError>(ListingError::MissingDateCell)
            } else {
                match listing_files(links, dates.map_values(|e: (Option<Seq<char>>, Option<Seq<char>>)| e.0)) {
                    Ok(fs) => (r matches Ok(v) && v@.map_values(|f: FileOnApache| f@) == fs),
                    Err(e) => (r matches Err(e2) && e2 == e),
                }
            }
        },
{
    let date_sel = CssSelector::parse("body > table > tbody > tr > td:nth-child(3)");
    let link_sel = CssSelector::parse("body > table > tbody > tr > td:nth-child(2) > a");
    let (date_sel, link_sel) = match (date_sel, link_sel) {
        (Some(d), Some(l)) => (d, l),
        _ => {
            return Err(ListingError::InvalidSelector);
        },
    };
    let doc = HtmlDocument::parse(body);
    let dates = doc.select(&date_sel, "href");
    let links = doc.select(&link_sel, "href");
    if links.len() > dates.len() {
        return Err(ListingError::MissingDateCell);
    }
    proof {
        let dm = dates@.map_values(|e: (Option<String>, Option<String>)| (opt_text(e.0), opt_text(e.1)));
        assert(dates@.map_values(|e: (Option<String>, Option<String>)| opt_text(e.0)) =~= dm.map_values(
            |e: (Option<Seq<char>>, Option<Seq<char>>)| e.0,
        ));
    }
    files_from_listing(&links, &dates)
}

// ---------------------------------------------------------------------------
// Choosing a distro, a version and a build.
// ---------------------------------------------------------------------------

/// The image server.
pub open spec fn container_org_base() -> Seq<char> {
    "https://images.linuxcontainers.org/"@
}

/// The image server.
pub fn linux_containers_org_base() -> (r: &'static str)
    ensures
        r@ == container_org_base(),
{
    "https://images.linuxcontainers.org/"
}

/// How many of the files are not later than `t`.
pub open spec fn count_not_later(fs: Seq<FileModel>, t: i64) -> nat
    decreases fs.len(),
{
    if fs.len() == 0 {
        0
    } else {
        count_not_later(fs.drop_last(), t) + if fs.last().last_modified <= t {
            1nat
        } else {
            0nat
        }
    }
}

/// `sorted` (in ascending order of time) with `f` placed after every file
/// whose time is not later than its own.
pub open spec fn insert_by_time(sorted: Seq<FileModel>, f: FileModel) -> Seq<FileModel> {
    let k = count_not_later(sorted, f.last_modified);
    sorted.take(k as int).push(f) + sorted.skip(k as int)
}

/// The files in ascending order of time, files of the same time in the order
/// they came (a stable sort).
pub open spec fn sort_by_time(fs: Seq<FileModel>) -> Seq<FileModel>
    decreases fs.len(),
{
    if fs.len() == 0 {
        Seq::empty()
    } else {
        insert_by_time(sort_by_time(fs.drop_last()), fs.last())
    }
}

/// The files are in ascending order of time.
pub open spec fn time_sorted(fs: Seq<FileModel>) -> bool {
    forall|i: int, j: int| 0 <= i < j < fs.len() ==> fs[i].last_modified <= fs[j].last_modified
}

/// In a sorted sequence, the files not later than `t` come first.
proof fn lemma_sorted_prefix(sorted: Seq<FileModel>, t: i64, k: int)
    requires
        time_sorted(sorted),
        0 <= k <= sorted.len(),
        forall|i: int| 0 <= i < k ==> sorted[i].last_modified <= t,
        forall|i: int| k <= i < sorted.len() ==> sorted[i].last_modified > t,
    ensures
        count_not_later(sorted, t) == k,
    decreases sorted.len(),
{
    if sorted.len() > 0 {
        let init = sorted.drop_last();
        if k == sorted.len() {
            lemma_sorted_prefix(init, t, k - 1);
        } else {
            lemma_sorted_prefix(init, t, k);
        }
    }
}

/// In files sorted by time, those not later than `t` are exactly the first
/// `count_not_later` of them.
proof fn lemma_count_not_later_split(s: Seq<FileModel>, t: i64)
    requires
        time_sorted(s),
    ensures
        count_not_later(s, t) <= s.len(),
        forall|i: int| 0 <= i < count_not_later(s, t) ==> (#[trigger] s[i]).last_modified <= t,
        forall|i: int| count_not_later(s, t) <= i < s.len() ==> (#[trigger] s[i]).last_modified > t,
    decreases s.len(),
{
    if s.len() > 0 {
        let init = s.drop_last();
        assert forall|i: int, j: int| 0 <= i < j < init.len() implies init[i].last_modified
            <= init[j].last_modified by {
            assert(init[i] == s[i] && init[j] == s[j]);
        }
        lemma_count_not_later_split(init, t);
        assert forall|i: int| 0 <= i < init.len() implies #[trigger] s[i] == init[i] by {}
        if s.last().last_modified <= t {
            assert forall|i: int| 0 <= i < s.len() implies (#[trigger] s[i]).last_modified <= t by {
                if i < s.len() - 1 {
                    assert(s[i].last_modified <= s[s.len() - 1].last_modified);
                }
            }
        }
    }
}

/// Sorting files by time gives the same files, each as often, in ascending
/// order of time.
pub proof fn lemma_sort_by_time(fs: Seq<FileModel>)
    ensures
        time_sorted(sort_by_time(fs)),
        sort_by_time(fs).to_multiset() == fs.to_multiset(),
        sort_by_time(fs).len() == fs.len(),
    decreases fs.len(),
{
    broadcast use vstd::seq_lib::group_to_multiset_ensures;
    if fs.len() == 0 {
        assert(sort_by_time(fs) =~= fs);
    } else {
        let init = fs.drop_last();
        let f = fs.last();
        lemma_sort_by_time(init);
        let s = sort_by_time(init);
        lemma_count_not_later_split(s, f.last_modified);
        let k = count_not_later(s, f.last_modified) as int;
        let r = sort_by_time(fs);
        assert(r == insert_by_time(s, f));
        assert(r =~= s.insert(k, f));
        vstd::seq_lib::to_multiset_insert(s, k, f);
        assert(fs =~= init.push(f));
        assert forall|i: int, j: int| 0 <= i < j < r.len() implies r[i].last_modified
            <= r[j].last_modified by {
            if j < k {
                assert(r[i] == s[i] && r[j] == s[j]);
            } else if j == k {
                assert(r[i] == s[i]);
            } else if i < k {
                assert(r[i] == s[i] && r[j] == s[j - 1]);
            } else if i == k {
                assert(r[j] == s[j - 1]);
            } else {
                assert(r[i] == s[i - 1] && r[j] == s[j - 1]);
            }
        }
    }
}

/// Places `f` into `v`, kept in ascending order of time, after the files
/// not later than it.
fn insert_file_by_time(v: &mut Vec<FileOnApache>, f: FileOnApache)
    requires
        time_sorted(old(v)@.map_values(|x: FileOnApache| x@)),
    ensures
        final(v)@.map_values(|x: FileOnApache| x@) == insert_by_time(old(v)@.map_values(|x: FileOnApache| x@), f@),
        time_sorted(final(v)@.map_values(|x: FileOnApache| x@)),
{
    let ghost s = v@.map_values(|x: FileOnApache| x@);
    let mut k: usize = 0;
    while k < v.len() && v[k].last_modified <= f.last_modified
        invariant
            k <= v.len(),
            s == v@.map_values(|x: FileOnApache| x@),
            s == old(v)@.map_values(|x: FileOnApache| x@),
            time_sorted(s),
            forall|i: int| 0 <= i < k ==> s[i].last_modified <= f.last_modified,
        decreases v.len() - k,
    {
        k = k + 1;
    }
    proof {
        assert forall|i: int| k <= i < s.len() implies s[i].last_modified > f.last_modified by {
            assert(s[k as int].last_modified > f.last_modified);
        }
        lemma_sorted_prefix(s, f.last_modified, k as int);
    }
    let ghost fv = f@;
    v.insert(k, f);
    assert(v@.map_values(|x: FileOnApache| x@) =~= s.take(k as int).push(fv) + s.skip(k as int));
}

/// The files in ascending order of time, a stable sort (`sort_by` on the time).
pub fn sort_files_by_time(files: &Vec<FileOnApache>) -> (r: Vec<FileOnApache>)
    ensures
        r@.map_values(|x: FileOnApache| x@) == sort_by_time(files@.map_values(|x: FileOnApache| x@)),
{
    let ghost fv = files@.map_values(|x: FileOnApache| x@);
    let mut r: Vec<FileOnApache> = Vec::new();
    let mut i: usize = 0;
    assert(fv.take(0) =~= Seq::<FileModel>::empty());
    assert(r@.map_values(|x: FileOnApache| x@) =~= Seq::<FileModel>::empty());
    while i < files.len()
        invariant
            i <= files.len(),
            fv == files@.map_values(|x: FileOnApache| x@),
            r@.map_values(|x: FileOnApache| x@) == sort_by_time(fv.take(i as int)),
            time_sorted(r@.map_values(|x: FileOnApache| x@)),
        decreases files.len() - i,
    {
        let f = FileOnApache {
            name: files[i].name.as_str().to_owned(),
            url: files[i].url.as_str().to_owned(),
            last_modified: files[i].last_modified,
        };
        assert(f@ == fv[i as int]);
        insert_file_by_time(&mut r, f);
        assert(fv.take(i + 1).drop_last() =~= fv.take(i as int));
        assert(fv.take(i + 1).last() == fv[i as int]);
        i = i + 1;
    }
    assert(fv.take(i as int) =~= fv);
    r
}

/// The position of the newest file: the first of those with the latest time
/// (what a stable sort from newest to oldest puts first).
pub open spec fn is_newest_at(fs: Seq<FileModel>, k: int) -> bool {
    &&& 0 <= k < fs.len()
    &&& forall|i: int| 0 <= i < fs.len() ==> fs[i].last_modified <= fs[k].last_modified
    &&& forall|i: int| 0 <= i < k ==> fs[i].last_modified < fs[k].last_modified
}

/// The position of the newest file.
pub fn newest_file(files: &Vec<FileOnApache>) -> (r: usize)
    requires
        files.len() > 0,
    ensures
        is_newest_at(files@.map_values(|x: FileOnApache| x@), r as int),
{
    let ghost fv = files@.map_values(|x: FileOnApache| x@);
    let mut best: usize = 0;
    let mut i: usize = 1;
    while i < files.len()
        invariant
            1 <= i <= files.len(),
            best < i,
            fv == files@.map_values(|x: FileOnApache| x@),
            forall|j: int| 0 <= j < i ==> fv[j].last_modified <= fv[best as int].last_modified,
            forall|j: int| 0 <= j < best ==> fv[j].last_modified < fv[best as int].last_modified,
        decreases files.len() - i,
    {
        if files[i].last_modified > files[best].last_modified {
            best = i;
        }
        i = i + 1;
    }
    best
}

/// The list of distros of the image server.
#[derive(Debug, Clone, Copy, Default)]
pub struct ContainerOrgImageList;

/// The versions of one distro.
#[derive(Debug, Clone)]
pub struct ContainerOrgDistroVersionList {
    name: String,
    version_list_url: String,
}

/// One version of one distro.
#[derive(Debug, Clone)]
pub struct ContainerOrgDistroVersion {
    distro_name: String,
    version_name: String,
    platform_list_url: String,
}

/// `a + b` as a new string.
fn concat_str(a: &str, b: &str) -> (r: String)
    ensures
        r@ == a@ + b@,
{
    let mut v: Vec<char> = str_to_chars(a);
    extend_str(&mut v, b);
    seq_to_string(&v)
}

impl ContainerOrgImageList {
    /// How the list is presented.
    pub fn get_name(&self) -> (r: &'static str)
        ensures
            r@ == "Download an image from linxcontainers.org"@,
    {
        "Download an image from linxcontainers.org"
    }

    /// The listing of the distros, relative to the server.
    pub fn listing_path(&self) -> (r: &'static str)
        ensures
            r@ == "images/"@,
    {
        "images/"
    }

    /// The distros listed in `files`, each with the listing of its versions;
    /// Ubuntu is proposed by default.
    pub fn distros(&self, files: &Vec<FileOnApache>) -> (r: (Vec<ContainerOrgDistroVersionList>, DefaultImageFetcher))
        ensures
            r.0@.len() == files@.len(),
            forall|i: int|
                0 <= i < files@.len() ==> (#[trigger] r.0@[i]).distro() == files@[i].name@
                    && r.0@[i].listing() == "images/"@ + files@[i].url@,
            r.1@ == DefaultChoice::Name("ubuntu"@),
    {
        let mut v: Vec<ContainerOrgDistroVersionList> = Vec::new();
        let mut i: usize = 0;
        while i < files.len()
            invariant
                i <= files.len(),
                v@.len() == i,
                forall|j: int|
                    0 <= j < i ==> (#[trigger] v@[j]).distro() == files@[j].name@
                        && v@[j].listing() == "images/"@ + files@[j].url@,
            decreases files.len() - i,
        {
            v.push(ContainerOrgDistroVersionList {
                name: files[i].name.as_str().to_owned(),
                version_list_url: concat_str("images/", files[i].url.as_str()),
            });
            i = i + 1;
        }
        (v, DefaultImageFetcher::Name("ubuntu".to_owned()))
    }
}

/// The version proposed by default for a distro with `n` versions: focal
/// for Ubuntu, bullseye for Debian, else the newest (the last).
pub open spec fn default_version(distro: Seq<char>, n: nat) -> DefaultChoice {
    if distro == "ubuntu"@ {
        DefaultChoice::Name("focal"@)
    } else if distro == "debian"@ {
        DefaultChoice::Name("bullseye"@)
    } else {
        DefaultChoice::Index((n - 1) as usize)
    }
}

/// The version proposed by default: `focal` for Ubuntu and `bullseye` for
/// Debian, however many versions are listed; for any other distro with `n`
/// versions listed, the last of them, the newest.
pub proof fn lemma_default_versions(d: Seq<char>, n: nat)
    ensures
        default_version("ubuntu"@, n) == DefaultChoice::Name("focal"@),
        default_version("debian"@, n) == DefaultChoice::Name("bullseye"@),
        d != "ubuntu"@ && d != "debian"@ && 0 < n <= usize::MAX ==> default_version(d, n)
            == DefaultChoice::Index((n - 1) as usize),
{
    reveal_strlit("debian");
    reveal_strlit("ubuntu");
    assert("debian"@[0] != "ubuntu"@[0]);
}

impl ContainerOrgDistroVersionList {
    /// The name of the distro.
    pub closed spec fn distro(&self) -> Seq<char> {
        self.name@
    }

    /// The listing of its versions, relative to the server.
    pub closed spec fn listing(&self) -> Seq<char> {
        self.version_list_url@
    }

    /// The name of the distro.
    pub fn get_name(&self) -> (r: &str)
        ensures
            r@ == self.distro(),
    {
        self.name.as_str()
    }

    /// The listing of its versions, relative to the server.
    pub fn listing_path(&self) -> (r: &str)
        ensures
            r@ == self.listing(),
    {
        self.version_list_url.as_str()
    }

    /// The versions listed in `files`, oldest first, and the one proposed
    /// by default: by name for Ubuntu and Debian, else the newest. A listing
    /// has at least one version.
    pub fn versions(&self, files: &Vec<FileOnApache>) -> (r: (Vec<ContainerOrgDistroVersion>, DefaultImageFetcher))
        requires
            files.len() > 0,
        ensures
            ({
                let sorted = sort_by_time(files@.map_values(|x: FileOnApache| x@));
                &&& r.0@.len() == sorted.len()
                &&& forall|i: int|
                    0 <= i < sorted.len() ==> (#[trigger] r.0@[i]).version() == sorted[i].name
                        && r.0@[i].distro() == self.distro() && r.0@[i].listing() == self.listing()
                        + sorted[i].url
            }),
            r.1@ == default_version(self.distro(), files@.len()),
    {
        let sorted = sort_files_by_time(files);
        let ghost sv = sorted@.map_values(|x: FileOnApache| x@);
        let mut v: Vec<ContainerOrgDistroVersion> = Vec::new();
        let mut i: usize = 0;
        while i < sorted.len()
            invariant
                i <= sorted.len(),
                sv == sorted@.map_values(|x: FileOnApache| x@),
                v@.len() == i,
                forall|j: int|
                    0 <= j < i ==> (#[trigger] v@[j]).version() == sv[j].name && v@[j].distro()
                        == self.distro() && v@[j].listing() == self.listing() + sv[j].url,
            decreases sorted.len() - i,
        {
            v.push(ContainerOrgDistroVersion {
                distro_name: self.name.as_str().to_owned(),
                version_name: sorted[i].name.as_str().to_owned(),
                platform_list_url: concat_str(self.version_list_url.as_str(), sorted[i].url.as_str()),
            });
            i = i + 1;
        }
        let n = files.len();
        let default = if str_eq(self.name.as_str(), "ubuntu") {
            DefaultImageFetcher::Name("focal".to_owned())
        } else if str_eq(self.name.as_str(), "debian") {
            DefaultImageFetcher::Name("bullseye".to_owned())
        } else {
            DefaultImageFetcher::Index(n - 1)
        };
        (v, default)
    }
}

/// The platform directory of a distro's builds: systemd builds for Gentoo.
pub open spec fn variant_of(distro: Seq<char>) -> Seq<char> {
    if distro == "gentoo"@ {
        "amd64/systemd"@
    } else {
        "amd64/default"@
    }
}

/// Gentoo's builds are taken from `amd64/systemd`, those of every other
/// distro from `amd64/default`.
pub proof fn lemma_variants(d: Seq<char>)
    ensures
        variant_of("gentoo"@) == "amd64/systemd"@,
        d != "gentoo"@ ==> variant_of(d) == "amd64/default"@,
{
}

impl ContainerOrgDistroVersion {
    /// The name of the distro.
    pub closed spec fn distro(&self) -> Seq<char> {
        self.distro_name@
    }

    /// The name of the version.
    pub closed spec fn version(&self) -> Seq<char> {
        self.version_name@
    }

    /// The listing of its platforms, relative to the server.
    pub closed spec fn listing(&self) -> Seq<char> {
        self.platform_list_url@
    }

    /// The name of the version.
    pub fn get_name(&self) -> (r: &str)
        ensures
            r@ == self.version(),
    {
        self.version_name.as_str()
    }

    /// The platform directory of its builds.
    pub fn variant(&self) -> (r: &'static str)
        ensures
            r@ == variant_of(self.distro()),
    {
        if str_eq(self.distro_name.as_str(), "gentoo") {
            "amd64/systemd"
        } else {
            "amd64/default"
        }
    }

    /// The listing of its builds, relative to the server.
    pub fn listing_path(&self) -> (r: String)
        ensures
            r@ == self.listing() + variant_of(self.distro()),
    {
        concat_str(self.platform_list_url.as_str(), self.variant())
    }

    /// The image of the newest build among `files`: named after the distro
    /// and the version, at the URL of the build's root filesystem archive.
    pub fn image(&self, files: &Vec<FileOnApache>) -> (r: DistroImage)
        requires
            files.len() > 0,
        ensures
            r.name@ == self.distro() + seq!['-'] + self.version(),
            exists|k: int|
                is_newest_at(files@.map_values(|x: FileOnApache| x@), k) && r.image == DistroImageFile::Url(
                    r.image->Url_0,
                ) && r.image->Url_0@ == container_org_base() + self.listing() + variant_of(self.distro())
                    + seq!['/'] + files@[k].url@ + "rootfs.tar.xz"@,
    {
        let latest = newest_file(files);
        let mut url: Vec<char> = str_to_chars(linux_containers_org_base());
        extend_str(&mut url, self.platform_list_url.as_str());
        extend_str(&mut url, self.variant());
        url.push('/');
        extend_str(&mut url, files[latest].url.as_str());
        extend_str(&mut url, "rootfs.tar.xz");
        let url = seq_to_string(&url);
        let mut name: Vec<char> = str_to_chars(self.distro_name.as_str());
        name.push('-');
        extend_str(&mut name, self.version_name.as_str());
        let name = seq_to_string(&name);
        let r = DistroImage { name, image: DistroImageFile::Url(url) };
        assert(is_newest_at(files@.map_values(|x: FileOnApache| x@), latest as int));
        r
    }
}

} // verus!
