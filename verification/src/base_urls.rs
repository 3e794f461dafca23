//! The published address of each documentation repository, as its
//! configuration file `docs/conf.py` gives it.

use crate::text;
use vstd::prelude::*;

verus! {

/// What one line of a configuration file says of the site's address.
pub enum Setting {
    /// The line does not assign it.
    Absent,
    /// The value.
    Value(Seq<char>),
}

/// What stands between two quotation marks `mark` around all of a value.
pub open spec fn quoted(value: Seq<char>, mark: Seq<char>) -> Option<Seq<char>> {
    match text::strip_prefix(value, mark) {
        None => None,
        Some(rest) => text::strip_suffix(rest, mark),
    }
}

/// Whether a text is only white space, or white space and a comment.
pub open spec fn is_remark(s: Seq<char>) -> bool {
    text::trim(s).len() == 0 || text::trim(s)[0] == '#'
}

/// What stands between the first two quotation marks `mark` of a value that
/// starts with one, if nothing but a comment follows them.
pub open spec fn quoted_before_remark(value: Seq<char>, mark: Seq<char>) -> Option<Seq<char>> {
    match text::strip_prefix(value, mark) {
        None => None,
        Some(rest) => match text::find_from(rest, mark, 0) {
            None => None,
            Some(end) => if is_remark(rest.skip(end + mark.len())) {
                Some(rest.take(end))
            } else {
                None
            },
        },
    }
}

/// The string that a value with quotation marks `mark` stands for.
pub open spec fn string_value(value: Seq<char>, mark: Seq<char>) -> Option<Seq<char>> {
    match quoted(value, mark) {
        Some(inner) => Some(inner),
        None => quoted_before_remark(value, mark),
    }
}

/// A value without its double or single quotation marks and without the comment
/// that may follow them.
pub open spec fn unquoted(value: Seq<char>) -> Seq<char> {
    match string_value(value, "\""@) {
        Some(inner) => inner,
        None => match string_value(value, "'"@) {
            Some(inner) => inner,
            None => value,
        },
    }
}

/// What one line of a configuration file says of the site's address. It assigns
/// the address if nothing but white space stands between the setting's name and
/// an equals sign.
pub open spec fn setting(line: Seq<char>) -> Setting {
    match text::strip_prefix(text::trim(line), "ogp_site_url"@) {
        None => Setting::Absent,
        Some(rest) => match text::strip_prefix(text::trim(rest), "="@) {
            None => Setting::Absent,
            Some(value) => Setting::Value(unquoted(text::trim(value))),
        },
    }
}

/// The first address that is not empty in some lines of a configuration file.
pub open spec fn site_url(lines: Seq<Seq<char>>) -> Option<Seq<char>>
    decreases lines.len(),
{
    if lines.len() == 0 {
        None
    } else {
        match setting(lines[0]) {
            Setting::Absent => site_url(lines.skip(1)),
            Setting::Value(url) => if url.len() > 0 {
                Some(url)
            } else {
                site_url(lines.skip(1))
            },
        }
    }
}

/// The string that a value with quotation marks `mark` stands for.
fn string_value_of<'a>(value: &'a [char], mark: &[char]) -> (r: Option<&'a [char]>)
    ensures
        string_value(value@, mark@) == (match r {
            Some(inner) => Some(inner@),
            None => None,
        }),
{
    match text::after_prefix(value, mark) {
        None => None,
        Some(rest) => {
            match text::before_suffix(rest, mark) {
                Some(inner) => Some(inner),
                None => match text::find(rest, mark) {
                    None => None,
                    Some(end) => {
                        let size: usize = rest.len();
                        assert(end + mark@.len() <= size);
                        let after = vstd::slice::slice_subrange(rest, end + mark.len(), size);
                        assert(after@ =~= rest@.skip(end + mark@.len()));
                        let remark = text::trim_of(after);
                        if remark.len() == 0 || remark[0] == '#' {
                            let inner = vstd::slice::slice_subrange(rest, 0, end);
                            assert(inner@ =~= rest@.take(end as int));
                            Some(inner)
                        } else {
                            None
                        }
                    },
                },
            }
        },
    }
}

/// The address of the site in the text of a configuration file.
pub fn extract_ogp_site_url(conf: &str) -> (r: Option<String>)
    ensures
        site_url(text::lines(conf@)) == (match r {
            Some(url) => Some(url@),
            None => None,
        }),
{
    let chars: Vec<char> = text::chars_of(conf);
    let lines: Vec<&[char]> = text::lines_of(chars.as_slice());
    let name: Vec<char> = text::chars_of("ogp_site_url");
    let equals: Vec<char> = text::chars_of("=");
    let double: Vec<char> = text::chars_of("\"");
    let single: Vec<char> = text::chars_of("'");
    let ghost all = text::slices(lines@);
    assert(all.skip(0) =~= all);
    for i in 0..lines.len()
        invariant
            all == text::slices(lines@),
            all == text::lines(conf@),
            site_url(all) == site_url(all.skip(i as int)),
            name@ == "ogp_site_url"@,
            equals@ == "="@,
            double@ == "\""@,
            single@ == "'"@,
    {
        assert(all.skip(i as int)[0] == lines@[i as int]@);
        assert(all.skip(i as int).skip(1) =~= all.skip(i + 1));
        match text::after_prefix(text::trim_of(lines[i]), name.as_slice()) {
            None => {},
            Some(rest) => {
                match text::after_prefix(text::trim_of(rest), equals.as_slice()) {
                    None => {},
                    Some(assigned) => {
                        let value = text::trim_of(assigned);
                        let url = match string_value_of(value, double.as_slice()) {
                            Some(inner) => inner,
                            None => match string_value_of(value, single.as_slice()) {
                                Some(inner) => inner,
                                None => value,
                            },
                        };
                        if url.len() > 0 {
                            return Some(text::string_of(url));
                        }
                    },
                }
            },
        }
    }
    assert(all.skip(lines@.len() as int) =~= Seq::<Seq<char>>::empty());
    None
}

/// Published addresses by the name of the repository.
pub struct BaseUrls {
    entries: Vec<(String, String)>,
}

/// The map that a list of entries stands for; a later one replaces an earlier
/// one.
pub open spec fn address_map(entries: Seq<(String, String)>) -> Map<Seq<char>, Seq<char>>
    decreases entries.len(),
{
    if entries.len() == 0 {
        Map::empty()
    } else {
        address_map(entries.drop_last()).insert(entries.last().0@, entries.last().1@)
    }
}

impl View for BaseUrls {
    type V = Map<Seq<char>, Seq<char>>;

    closed spec fn view(&self) -> Map<Seq<char>, Seq<char>> {
        address_map(self.entries@)
    }
}

impl BaseUrls {
    /// No addresses.
    pub fn new() -> (r: BaseUrls)
        ensures
            r@ == Map::<Seq<char>, Seq<char>>::empty(),
    {
        BaseUrls { entries: Vec::new() }
    }

    /// Sets the address of a repository.
    pub fn insert(&mut self, repo: String, url: String)
        ensures
            final(self)@ == old(self)@.insert(repo@, url@),
    {
        let ghost before = self.entries@;
        self.entries.push((repo, url));
        assert(self.entries@.drop_last() =~= before);
    }

    /// The address of a repository.
    pub fn get(&self, repo: &str) -> (r: Option<&str>)
        ensures
            match r {
                Some(url) => self@.dom().contains(repo@) && self@[repo@] == url@,
                None => !self@.dom().contains(repo@),
            },
    {
        let key: String = repo.to_owned();
        let mut n: usize = self.entries.len();
        assert(self.entries@.take(n as int) =~= self.entries@);
        while n > 0
            invariant
                key@ == repo@,
                n <= self.entries@.len(),
                self@.dom().contains(repo@) == address_map(
                    self.entries@.take(n as int),
                ).dom().contains(repo@),
                self@.dom().contains(repo@) ==> self@[repo@] == address_map(
                    self.entries@.take(n as int),
                )[repo@],
            decreases n,
        {
            let ghost front = self.entries@.take(n as int);
            assert(front.drop_last() =~= self.entries@.take(n - 1));
            assert(front.last() == self.entries@[n - 1]);
            if self.entries[n - 1].0 == key {
                return Some(self.entries[n - 1].1.as_str());
            }
            n = n - 1;
        }
        None
    }
}

/// A repository and the text of its configuration file.
pub struct RepoConf {
    pub repo: String,
    pub conf: String,
}

/// The address that each repository's configuration file gives, for those that
/// give one.
pub open spec fn base_urls_of(confs: Seq<RepoConf>) -> Map<Seq<char>, Seq<char>>
    decreases confs.len(),
{
    if confs.len() == 0 {
        Map::empty()
    } else {
        let earlier = base_urls_of(confs.drop_last());
        match site_url(text::lines(confs.last().conf@)) {
            Some(url) => earlier.insert(confs.last().repo@, url),
            None => earlier,
        }
    }
}

/// The address that each repository's configuration file gives.
pub fn read_base_urls(confs: &Vec<RepoConf>) -> (r: BaseUrls)
    ensures
        r@ == base_urls_of(confs@),
{
    let mut urls: BaseUrls = BaseUrls::new();
    for i in 0..confs.len()
        invariant
            urls@ == base_urls_of(confs@.take(i as int)),
    {
        assert(confs@.take(i + 1).drop_last() =~= confs@.take(i as int));
        match extract_ogp_site_url(confs[i].conf.as_str()) {
            Some(url) => {
                urls.insert(confs[i].repo.clone(), url);
            },
            None => {},
        }
    }
    assert(confs@.take(confs@.len() as int) =~= confs@);
    urls
}

/// Each repository has the address that its own configuration file gives, in
/// whatever order they are listed, as long as no two have the same name. There
/// are no other addresses.
pub proof fn law_address_of_each_repo(confs: Seq<RepoConf>)
    requires
        forall|i: int, j: int|
            0 <= i < j < confs.len() ==> (#[trigger] confs[i]).repo@ != (#[trigger] confs[j]).repo@,
    ensures
        forall|i: int|
            0 <= i < confs.len() ==> match site_url(text::lines((#[trigger] confs[i]).conf@)) {
                Some(url) => base_urls_of(confs).dom().contains(confs[i].repo@) && base_urls_of(
                    confs,
                )[confs[i].repo@] == url,
                None => !base_urls_of(confs).dom().contains(confs[i].repo@),
            },
        forall|repo: Seq<char>| #[trigger]
            base_urls_of(confs).dom().contains(repo) ==> exists|i: int|
                0 <= i < confs.len() && (#[trigger] confs[i]).repo@ == repo,
    decreases confs.len(),
{
    if confs.len() > 0 {
        let front = confs.drop_last();
        let last = confs.len() - 1;
        assert(forall|i: int| 0 <= i < front.len() ==> #[trigger] confs[i] == front[i]);
        law_address_of_each_repo(front);
        assert forall|repo: Seq<char>| #[trigger]
            base_urls_of(confs).dom().contains(repo) implies exists|i: int|
            0 <= i < confs.len() && (#[trigger] confs[i]).repo@ == repo by {
            if base_urls_of(front).dom().contains(repo) {
                let i = choose|i: int| 0 <= i < front.len() && (#[trigger] front[i]).repo@ == repo;
                assert(confs[i].repo@ == repo);
            } else {
                assert(confs[last].repo@ == repo);
            }
        }
        if base_urls_of(front).dom().contains(confs[last].repo@) {
            let i = choose|i: int|
                0 <= i < front.len() && (#[trigger] front[i]).repo@ == confs[last].repo@;
            assert(confs[i].repo@ == confs[last].repo@);
        }
    }
}

/// The name and the configuration of each of some repositories.
pub open spec fn conf_views(confs: Seq<RepoConf>) -> Seq<(Seq<char>, Seq<char>)> {
    confs.map_values(|c: RepoConf| (c.repo@, c.conf@))
}

/// The addresses do not depend on the order in which the repositories are
/// listed, as long as no two have the same name.
pub proof fn law_addresses_whatever_the_listing(a: Seq<RepoConf>, b: Seq<RepoConf>)
    requires
        forall|i: int, j: int|
            0 <= i < j < a.len() ==> (#[trigger] a[i]).repo@ != (#[trigger] a[j]).repo@,
        conf_views(a).to_multiset() == conf_views(b).to_multiset(),
    ensures
        base_urls_of(a) == base_urls_of(b),
{
    broadcast use vstd::seq_lib::group_to_multiset_ensures;

    let (va, vb) = (conf_views(a), conf_views(b));
    assert forall|i: int, j: int| 0 <= i < va.len() && 0 <= j < va.len() && i != j implies va[i]
        != va[j] by {
        let (k, n) = if i < j {
            (i, j)
        } else {
            (j, i)
        };
        assert(a[k].repo@ != a[n].repo@);
    }
    va.lemma_multiset_has_no_duplicates();
    vb.lemma_multiset_has_no_duplicates_conv();
    assert forall|x: (Seq<char>, Seq<char>)| va.contains(x) <==> vb.contains(x) by {
        assert(va.contains(x) <==> va.to_multiset().count(x) > 0);
        assert(vb.contains(x) <==> vb.to_multiset().count(x) > 0);
    }
    assert forall|i: int, j: int| 0 <= i < j < b.len() implies (#[trigger] b[i]).repo@ != (
    #[trigger] b[j]).repo@ by {
        assert(vb[i] != vb[j]);
        assert(va.contains(vb[i]) && va.contains(vb[j]));
        let k = choose|k: int| 0 <= k < va.len() && va[k] == vb[i];
        let n = choose|n: int| 0 <= n < va.len() && va[n] == vb[j];
        if k < n {
            assert(a[k].repo@ != a[n].repo@);
        } else {
            assert(a[n].repo@ != a[k].repo@);
        }
    }
    lemma_addresses_among(a, b);
    lemma_addresses_among(b, a);
    assert(base_urls_of(a) =~= base_urls_of(b));
}

proof fn lemma_addresses_among(a: Seq<RepoConf>, b: Seq<RepoConf>)
    requires
        forall|i: int, j: int|
            0 <= i < j < a.len() ==> (#[trigger] a[i]).repo@ != (#[trigger] a[j]).repo@,
        forall|i: int, j: int|
            0 <= i < j < b.len() ==> (#[trigger] b[i]).repo@ != (#[trigger] b[j]).repo@,
        forall|x: (Seq<char>, Seq<char>)| #[trigger]
            conf_views(a).contains(x) ==> conf_views(b).contains(x),
    ensures
        base_urls_of(a).submap_of(base_urls_of(b)),
{
    let (va, vb) = (conf_views(a), conf_views(b));
    law_address_of_each_repo(a);
    law_address_of_each_repo(b);
    assert forall|repo: Seq<char>| #[trigger]
        base_urls_of(a).dom().contains(repo) implies base_urls_of(b).dom().contains(repo)
        && base_urls_of(a)[repo] == base_urls_of(b)[repo] by {
        let i = choose|i: int| 0 <= i < a.len() && (#[trigger] a[i]).repo@ == repo;
        assert(va[i] == (a[i].repo@, a[i].conf@));
        assert(va.contains(va[i]));
        assert(vb.contains(va[i]));
        let k = choose|k: int| 0 <= k < vb.len() && vb[k] == va[i];
        assert(b[k].repo@ == repo && b[k].conf@ == a[i].conf@);
    }
}

/// The address that counts is the first one that is not empty, whatever the
/// lines after it say.
pub proof fn law_first_address_counts(
    front: Seq<Seq<char>>,
    line: Seq<char>,
    url: Seq<char>,
    back: Seq<Seq<char>>,
)
    requires
        forall|i: int|
            0 <= i < front.len() ==> setting(#[trigger] front[i]) is Absent || setting(front[i])
                == Setting::Value(Seq::empty()),
        setting(line) == Setting::Value(url),
        url.len() > 0,
    ensures
        site_url(front + seq![line] + back) == Some(url),
    decreases front.len(),
{
    let all = front + seq![line] + back;
    if front.len() == 0 {
        assert(all[0] == line);
    } else {
        let rest = front.skip(1);
        assert forall|i: int| 0 <= i < rest.len() implies setting(#[trigger] rest[i]) is Absent
            || setting(rest[i]) == Setting::Value(Seq::empty()) by {
            assert(rest[i] == front[i + 1]);
        }
        law_first_address_counts(rest, line, url, back);
        assert(all[0] == front[0]);
        assert(all.skip(1) =~= rest + seq![line] + back);
    }
}

/// A line that does not assign the address changes nothing, wherever it stands.
pub proof fn law_other_lines_do_not_count(
    front: Seq<Seq<char>>,
    line: Seq<char>,
    back: Seq<Seq<char>>,
)
    requires
        setting(line) is Absent,
    ensures
        site_url(front + seq![line] + back) == site_url(front + back),
    decreases front.len(),
{
    let all = front + seq![line] + back;
    if front.len() == 0 {
        assert(all[0] == line);
        assert(all.skip(1) =~= back);
        assert(front + back =~= back);
    } else {
        let rest = front.skip(1);
        law_other_lines_do_not_count(rest, line, back);
        assert(all[0] == front[0]);
        assert(all.skip(1) =~= rest + seq![line] + back);
        assert((front + back)[0] == front[0]);
        assert((front + back).skip(1) =~= rest + back);
    }
}

/// An address that is assigned between quotation marks is read back.
pub proof fn law_quoted_address_read_back(url: Seq<char>)
    ensures
        setting("ogp_site_url = \""@ + url + "\""@) == Setting::Value(url),
        setting("ogp_site_url = '"@ + url + "'"@) == Setting::Value(url),
{
    reveal_strlit("\"");
    reveal_strlit("'");
    reveal_strlit("ogp_site_url = \"");
    reveal_strlit("ogp_site_url = '");
    reveal_strlit("ogp_site_url = ");
    assert("ogp_site_url = \""@ + url + "\""@ =~= "ogp_site_url = "@ + ("\""@ + url + "\""@));
    assert("ogp_site_url = '"@ + url + "'"@ =~= "ogp_site_url = "@ + ("'"@ + url + "'"@));
    let d = "\""@ + url + "\""@;
    let s = "'"@ + url + "'"@;
    lemma_assignment("ogp_site_url = \""@ + url + "\""@, d);
    lemma_assignment("ogp_site_url = '"@ + url + "'"@, s);
    lemma_quoted(url, '"');
    lemma_quoted(url, '\'');
    assert("\""@ =~= seq!['"']);
    assert("'"@ =~= seq!['\'']);
    assert("\""@[0] != s.subrange(0, 1)[0]);
    assert(!"\""@.is_prefix_of(s));
}

proof fn lemma_quoted(url: Seq<char>, m: char)
    ensures
        quoted(seq![m] + url + seq![m], seq![m]) == Some(url),
{
    let mark = seq![m];
    let d = mark + url + mark;
    assert(mark =~= d.subrange(0, 1));
    assert(d.skip(1) =~= url + mark);
    assert(mark =~= (url + mark).subrange(url.len() as int, url.len() as int + 1));
    assert((url + mark).take(url.len() as int) =~= url);
}

/// An address that is assigned between quotation marks is read back without the
/// comment that follows it. Left aside are comments that end in such a mark.
pub proof fn law_comment_left_out(
    mark: Seq<char>,
    url: Seq<char>,
    gap: Seq<char>,
    comment: Seq<char>,
)
    requires
        mark == "\""@ || mark == "'"@,
        !url.contains(mark[0]),
        text::is_blank(gap),
        comment.len() > 0 ==> !text::is_whitespace(comment.last()) && comment.last() != mark[0],
    ensures
        setting("ogp_site_url = "@ + mark + url + mark + gap + "#"@ + comment) == Setting::Value(
            url,
        ),
{
    reveal_strlit("\"");
    reveal_strlit("'");
    reveal_strlit("#");
    let m = mark[0];
    assert(mark =~= seq![m]);
    let none = Seq::<char>::empty();
    let remark = "#"@ + comment;
    let rest = url + mark + gap + remark;
    let value = mark + rest;
    let line = "ogp_site_url = "@ + mark + url + mark + gap + "#"@ + comment;
    assert(line =~= "ogp_site_url = "@ + value);
    assert(value.last() == remark.last());
    assert(text::is_trimmed(value));
    lemma_assignment(line, value);
    assert(mark =~= value.subrange(0, 1));
    assert(value.skip(1) =~= rest);
    if mark.is_suffix_of(rest) {
        assert(rest.subrange(rest.len() - 1, rest.len() as int)[0] == m);
    }
    if m == '\'' {
        assert("\""@[0] != value.subrange(0, 1)[0]);
    }
    let n = url.len() as int;
    assert(rest.subrange(n, n + 1) =~= mark);
    assert forall|k: int| 0 <= k < n implies !#[trigger] text::occurs_at(rest, mark, k) by {
        assert(url.contains(url[k]));
        assert(rest.subrange(k, k + 1)[0] == url[k]);
    }
    text::lemma_found(rest, mark, 0, n);
    let after = rest.skip(n + 1);
    assert(after =~= gap + remark + none);
    text::law_trim_padded(gap, remark, none);
    assert(rest.take(n) =~= url);
}

proof fn lemma_assignment(line: Seq<char>, value: Seq<char>)
    requires
        text::is_trimmed(value),
        line == "ogp_site_url = "@ + value,
    ensures
        setting(line) == Setting::Value(unquoted(value)),
{
    reveal_strlit("ogp_site_url = ");
    reveal_strlit("ogp_site_url");
    reveal_strlit("=");
    let none = Seq::<char>::empty();
    assert(line[0] == 'o');
    assert(text::is_trimmed(line));
    text::law_trim_padded(none, line, none);
    assert(none + line + none =~= line);
    assert("ogp_site_url"@ =~= line.subrange(0, 12));
    let rest = line.skip(12);
    let assigned = "="@ + seq![' '] + value;
    assert(rest =~= seq![' '] + assigned + none);
    text::law_trim_padded(seq![' '], assigned, none);
    assert("="@ =~= assigned.subrange(0, 1));
    assert(assigned.skip(1) =~= seq![' '] + value + none);
    text::law_trim_padded(seq![' '], value, none);
}

/// A configuration that is listed later counts for its repository if it gives an
/// address, and changes no other repository's.
pub proof fn law_later_configuration(confs: Seq<RepoConf>, later: RepoConf)
    ensures
        match site_url(text::lines(later.conf@)) {
            Some(url) => base_urls_of(confs.push(later)) == base_urls_of(confs).insert(
                later.repo@,
                url,
            ),
            None => base_urls_of(confs.push(later)) == base_urls_of(confs),
        },
        base_urls_of(Seq::empty()) == Map::<Seq<char>, Seq<char>>::empty(),
{
    assert(confs.push(later).drop_last() =~= confs);
}

} // verus!
