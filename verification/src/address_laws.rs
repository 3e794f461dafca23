//! What holds of the addresses of repositories and of their pages.

use crate::base_urls;
use crate::base_urls::Setting;
use crate::includes;
use crate::page_urls;
use crate::path_laws;
use crate::paths;
use crate::text;
use crate::text_laws;
use vstd::prelude::*;
use vstd::utf8::*;

verus! {

/// A line assigns the address if it is the setting's name, an equals sign and a
/// value, whatever white space stands around them.
pub proof fn law_assignment_recognised(
    front: Seq<char>,
    before: Seq<char>,
    after: Seq<char>,
    value: Seq<char>,
    back: Seq<char>,
)
    requires
        text::is_blank(front),
        text::is_blank(before),
        text::is_blank(after),
        text::is_blank(back),
        value.len() == 0 || text::is_trimmed(value),
    ensures
        base_urls::setting(front + "ogp_site_url"@ + before + "="@ + after + value + back)
            == Setting::Value(base_urls::unquoted(value)),
{
    reveal_strlit("ogp_site_url");
    reveal_strlit("=");
    let none = Seq::<char>::empty();
    let line = front + "ogp_site_url"@ + before + "="@ + after + value + back;
    // What white space is left behind the equals sign depends on the value.
    let (kept, cut) = if value.len() > 0 {
        (after + value, back)
    } else {
        (none, after + back)
    };
    lemma_blank_joined(after, back);
    let assigned = "="@ + kept;
    let body = "ogp_site_url"@ + before + assigned;
    assert(line =~= front + body + cut);
    assert(body[0] == 'o');
    assert(body.last() == assigned.last());
    assert(assigned.last() == (if value.len() > 0 {
        value.last()
    } else {
        '='
    }));
    assert(text::is_trimmed(body));
    text::law_trim_padded(front, body, cut);
    let rest = before + assigned;
    assert(body =~= "ogp_site_url"@ + rest);
    text_laws::law_prefix_taken_off(body, "ogp_site_url"@, rest);
    assert(assigned[0] == '=');
    assert(text::is_trimmed(assigned));
    text::law_trim_padded(before, assigned, none);
    assert(rest =~= before + assigned + none);
    text_laws::law_prefix_taken_off(assigned, "="@, kept);
    if value.len() > 0 {
        text::law_trim_padded(after, value, none);
        assert(kept =~= after + value + none);
    } else {
        text::law_trim_is_trimmed(kept);
        assert(text::trim(kept) =~= value);
    }
}

proof fn lemma_blank_joined(a: Seq<char>, b: Seq<char>)
    requires
        text::is_blank(a),
        text::is_blank(b),
    ensures
        text::is_blank(a + b),
{
    assert forall|i: int| 0 <= i < (a + b).len() implies text::is_whitespace(
        #[trigger] (a + b)[i],
    ) by {
        if i < a.len() {
            assert((a + b)[i] == a[i]);
        } else {
            assert((a + b)[i] == b[i - a.len()]);
        }
    }
}

/// A line that starts with anything but the setting's name says nothing of the
/// address, whatever it assigns.
pub proof fn law_other_names_say_nothing(front: Seq<char>, rest: Seq<char>)
    requires
        text::is_blank(front),
        rest.len() > 0 ==> !text::is_whitespace(rest[0]),
        !"ogp_site_url"@.is_prefix_of(rest),
    ensures
        base_urls::setting(front + rest) is Absent,
{
    let line = front + rest;
    let t = text::trim(line);
    lemma_trim_front(front, rest);
    if "ogp_site_url"@.is_prefix_of(t) {
        let n = "ogp_site_url"@.len() as int;
        assert(rest.subrange(0, n) =~= t.subrange(0, n));
    }
}

/// A line on which something other than an equals sign follows the setting's
/// name says nothing of the address.
pub proof fn law_longer_names_say_nothing(front: Seq<char>, gap: Seq<char>, rest: Seq<char>)
    requires
        text::is_blank(front),
        text::is_blank(gap),
        rest.len() > 0 ==> !text::is_whitespace(rest[0]) && rest[0] != '=',
    ensures
        base_urls::setting(front + "ogp_site_url"@ + gap + rest) is Absent,
{
    reveal_strlit("ogp_site_url");
    reveal_strlit("=");
    let name = "ogp_site_url"@;
    let line = front + name + gap + rest;
    let tail = name + gap + rest;
    assert(line =~= front + tail);
    lemma_trim_front(front, tail);
    let t = text::trim(line);
    match text::strip_prefix(t, name) {
        None => {},
        Some(left) => {
            text_laws::law_prefix_taken_off(t, name, left);
            // What is left is the start of the gap and the rest.
            let all = gap + rest;
            assert forall|i: int| 0 <= i < left.len() implies left[i] == all[i] by {
                assert(t[i + name.len()] == tail[i + name.len()]);
            }
            let (pad, back) = text_laws::law_trim_keeps_the_rest(left);
            let u = text::trim(left);
            if "="@.is_prefix_of(u) {
                assert(u.subrange(0, 1)[0] == '=');
                let k = pad.len() as int;
                assert(left[k] == u[0]);
                assert(all[k] == '=');
                if k < gap.len() {
                    assert(text::is_whitespace(gap[k]));
                } else if k > gap.len() {
                    assert(left[gap.len() as int] == rest[0]);
                    assert(pad[gap.len() as int] == left[gap.len() as int]);
                    assert(text::is_whitespace(pad[gap.len() as int]));
                }
            }
        },
    }
}

proof fn lemma_trim_front(front: Seq<char>, rest: Seq<char>)
    requires
        text::is_blank(front),
        rest.len() > 0 ==> !text::is_whitespace(rest[0]),
    ensures
        text::trim(front + rest).is_prefix_of(rest),
{
    let line = front + rest;
    let p = |c: char| text::is_whitespace(c);
    assert forall|i: int| 0 <= i < front.len() implies p(#[trigger] line[i]) by {
        assert(line[i] == front[i]);
    }
    if rest.len() > 0 {
        assert(line[front.len() as int] == rest[0]);
    }
    text::lemma_front_run(line, p, front.len() as int);
    assert(text::trim_start(line) =~= rest);
    text::lemma_back_run(rest, p, 0);
    let t = text::trim(line);
    assert(t =~= rest.subrange(0, t.len() as int));
}

/// A value between two quotation marks of one sort stands for all between them.
/// One that starts with neither sort stands for itself.
pub proof fn law_value_of_setting(inner: Seq<char>, plain: Seq<char>)
    requires
        plain.len() > 0 ==> plain[0] != '"' && plain[0] != '\'',
    ensures
        base_urls::unquoted(seq!['"'] + inner + seq!['"']) == inner,
        base_urls::unquoted(seq!['\''] + inner + seq!['\'']) == inner,
        base_urls::unquoted(plain) == plain,
{
    reveal_strlit("\"");
    reveal_strlit("'");
    assert("\""@ =~= seq!['"']);
    assert("'"@ =~= seq!['\'']);
    lemma_between(inner, seq!['"']);
    lemma_between(inner, seq!['\'']);
    let single = seq!['\''] + inner + seq!['\''];
    assert(single[0] == '\'');
    lemma_other_start(single, '"');
    lemma_other_start(plain, '"');
    lemma_other_start(plain, '\'');
}

proof fn lemma_between(inner: Seq<char>, mark: Seq<char>)
    ensures
        base_urls::quoted(mark + inner + mark, mark) == Some(inner),
{
    assert(mark + inner + mark =~= mark + (inner + mark));
    text_laws::law_prefix_taken_off(mark + inner + mark, mark, inner + mark);
    text_laws::law_suffix_taken_off(inner + mark, mark, inner);
}

proof fn lemma_other_start(value: Seq<char>, mark: char)
    requires
        value.len() > 0 ==> value[0] != mark,
    ensures
        base_urls::string_value(value, seq![mark]) is None,
{
    if seq![mark].is_prefix_of(value) {
        assert(value.subrange(0, 1)[0] == mark);
    }
}

/// A value that starts with a quotation mark stands for itself if no other
/// follows, or if something else than a comment follows the next.
pub proof fn law_open_values_stay(
    mark: char,
    inner: Seq<char>,
    gap: Seq<char>,
    rest: Seq<char>,
)
    requires
        mark == '"' || mark == '\'',
        !inner.contains(mark),
        text::is_blank(gap),
        text::is_trimmed(rest),
        rest[0] != '#',
        rest.last() != mark,
    ensures
        base_urls::unquoted(seq![mark] + inner) == seq![mark] + inner,
        base_urls::unquoted(seq![mark] + inner + seq![mark] + gap + rest) == seq![mark] + inner
            + seq![mark] + gap + rest,
{
    reveal_strlit("\"");
    reveal_strlit("'");
    assert("\""@ =~= seq!['"']);
    assert("'"@ =~= seq!['\'']);
    let m = seq![mark];
    let other = if mark == '"' {
        '\''
    } else {
        '"'
    };
    let none = Seq::<char>::empty();
    let open = m + inner;
    assert(open[0] == mark);
    text_laws::law_prefix_taken_off(open, m, inner);
    if m.is_suffix_of(inner) {
        assert(inner.subrange(inner.len() - 1, inner.len() as int)[0] == mark);
        assert(inner.contains(inner.last()));
    }
    text_laws::law_first_place_found(inner, m);
    if text::find_from(inner, m, 0) is Some {
        let k = text::find_from(inner, m, 0)->0;
        assert(inner.subrange(k, k + 1)[0] == mark);
        assert(inner.contains(inner[k]));
    }
    lemma_other_start(open, other);
    let long = m + inner + m + gap + rest;
    let tail = inner + m + gap + rest;
    assert(long =~= m + tail);
    assert(long[0] == mark);
    text_laws::law_prefix_taken_off(long, m, tail);
    if m.is_suffix_of(tail) {
        assert(tail.subrange(tail.len() - 1, tail.len() as int)[0] == mark);
    }
    let n = inner.len() as int;
    assert(tail.subrange(n, n + 1) =~= m);
    assert forall|k: int| 0 <= k < n implies !#[trigger] text::occurs_at(tail, m, k) by {
        assert(inner.contains(inner[k]));
        assert(tail.subrange(k, k + 1)[0] == inner[k]);
    }
    text::lemma_found(tail, m, 0, n);
    assert(tail.skip(n + 1) =~= gap + rest + none);
    text::law_trim_padded(gap, rest, none);
    lemma_other_start(long, other);
}

/// There is no address if no line assigns one that is not empty.
pub proof fn law_no_address(lines: Seq<Seq<char>>)
    requires
        forall|i: int|
            0 <= i < lines.len() ==> base_urls::setting(#[trigger] lines[i]) is Absent
                || base_urls::setting(lines[i]) == Setting::Value(Seq::empty()),
    ensures
        base_urls::site_url(lines) is None,
    decreases lines.len(),
{
    if lines.len() > 0 {
        let rest = lines.skip(1);
        assert forall|i: int| 0 <= i < rest.len() implies base_urls::setting(
            #[trigger] rest[i],
        ) is Absent || base_urls::setting(rest[i]) == Setting::Value(Seq::empty()) by {
            assert(rest[i] == lines[i + 1]);
        }
        law_no_address(rest);
    }
}

/// The encodings of some names.
pub open spec fn encoded(names: Seq<Seq<char>>) -> Seq<Seq<u8>> {
    names.map_values(|name: Seq<char>| encode_utf8(name))
}

/// A file adds its name to the address, without the ending `.md` if it has that
/// and else as it is; each directory on the way adds its own name unchanged.
pub proof fn law_parts_of_page(dirs: Seq<Seq<char>>, stem: Seq<char>, name: Seq<char>)
    requires
        dirs.len() > 0 ==> dirs[0] != "docs"@,
        name != "docs"@ || dirs.len() > 0,
        !".md"@.is_suffix_of(name),
    ensures
        page_urls::page_parts(encoded(dirs).push(encode_utf8(stem + ".md"@))) == dirs.push(stem),
        page_urls::page_parts(encoded(dirs).push(encode_utf8(name))) == dirs.push(name),
{
    reveal_strlit(".md");
    reveal_strlit("docs");
    let long = stem + ".md"@;
    assert(long != "docs"@) by {
        assert(long.last() == 'd');
        assert("docs"@.last() == 's');
    }
    lemma_parts(dirs, long);
    lemma_parts(dirs, name);
    text_laws::law_suffix_taken_off(long, ".md"@, stem);
    assert(dirs.push(long).update(dirs.len() as int, stem) =~= dirs.push(stem));
    assert(dirs.push(name).update(dirs.len() as int, name) =~= dirs.push(name));
}

proof fn lemma_parts(dirs: Seq<Seq<char>>, name: Seq<char>)
    requires
        dirs.len() > 0 ==> dirs[0] != "docs"@,
        name != "docs"@ || dirs.len() > 0,
    ensures
        page_urls::page_parts(encoded(dirs).push(encode_utf8(name))) == dirs.push(name).update(
            dirs.len() as int,
            page_urls::without_md(name),
        ),
{
    let all = dirs.push(name);
    let c = encoded(dirs).push(encode_utf8(name));
    assert(c =~= encoded(all));
    lemma_docs_name();
    assert(c[0] != includes::docs_name()) by {
        assert(c[0] == encode_utf8(all[0]));
        encode_utf8_decode_utf8(all[0]);
        encode_utf8_decode_utf8("docs"@);
    }
    let names = c.map_values(|b: Seq<u8>| page_urls::component_text(b));
    assert forall|i: int| 0 <= i < all.len() implies names[i] == all[i] by {
        encode_utf8_valid_utf8(all[i]);
        encode_utf8_decode_utf8(all[i]);
    }
    assert(names =~= all);
    assert(page_urls::page_parts(c) =~= all.update(
        dirs.len() as int,
        page_urls::without_md(name),
    ));
}

proof fn lemma_docs_name()
    ensures
        includes::docs_name() == encode_utf8("docs"@),
{
    reveal_strlit("docs");
    path_laws::lemma_ascii("docs"@, includes::docs_name());
}

/// A directory `docs` right below the repository is no part of the address, and
/// any further one is.
pub proof fn law_docs_left_out(components: Seq<Seq<u8>>)
    requires
        components.len() > 0 ==> components[0] != encode_utf8("docs"@),
    ensures
        page_urls::page_parts(Seq::empty()) == Seq::<Seq<char>>::empty(),
        page_urls::page_parts(seq![encode_utf8("docs"@)] + components) == page_urls::page_parts(
            components,
        ),
        components.len() > 0 ==> page_urls::page_parts(
            seq![encode_utf8("docs"@), encode_utf8("docs"@)] + components,
        ) == seq!["docs"@] + page_urls::page_parts(components),
{
    lemma_docs_name();
    let docs = encode_utf8("docs"@);
    let none = Seq::<Seq<u8>>::empty();
    assert(page_urls::page_parts(none) =~= Seq::<Seq<char>>::empty());
    let one = seq![docs] + components;
    assert(one.skip(1) =~= components);
    let two = seq![docs, docs] + components;
    assert(two.skip(1) =~= one);
    if components.len() > 0 {
        let f = |b: Seq<u8>| page_urls::component_text(b);
        encode_utf8_valid_utf8("docs"@);
        encode_utf8_decode_utf8("docs"@);
        assert(one.map_values(f) =~= seq!["docs"@] + components.map_values(f));
        assert(page_urls::page_parts(two) =~= seq!["docs"@] + page_urls::page_parts(components));
    }
}

/// Every component adds one part: a directory its name as it is, the file its
/// name without the ending `.md`, and one that is not UTF-8 an empty part.
pub proof fn law_every_component_counts(components: Seq<Seq<u8>>, i: int)
    requires
        0 <= i < components.len(),
        components[0] != encode_utf8("docs"@),
    ensures
        page_urls::page_parts(components).len() == components.len(),
        !valid_utf8(components[i]) ==> page_urls::page_parts(components)[i]
            == Seq::<char>::empty(),
        valid_utf8(components[i]) && i < components.len() - 1 ==> page_urls::page_parts(
            components,
        )[i] == decode_utf8(components[i]),
        valid_utf8(components[i]) && i == components.len() - 1 ==> {
            let (name, part) = (decode_utf8(components[i]), page_urls::page_parts(components)[i]);
            name == part + ".md"@ || (name == part && !".md"@.is_suffix_of(name))
        },
{
    lemma_docs_name();
    reveal_strlit(".md");
    let name = page_urls::component_text(components[i]);
    text_laws::law_suffix_taken_off(name, ".md"@, page_urls::without_md(name));
    if ".md"@.is_suffix_of(Seq::<char>::empty()) {
        assert(".md"@.len() == 3);
    }
}

/// A page has an address exactly if its path goes on from the directory of the
/// repositories with the name of one that has an address.
pub proof fn law_which_pages_have_addresses(
    path: Seq<u8>,
    docs_dir: Seq<u8>,
    urls: Map<Seq<char>, Seq<char>>,
)
    ensures
        page_urls::page_url(path, docs_dir, urls) is Some <==> {
            let (all, front) = (paths::components(path), paths::components(docs_dir));
            &&& front.len() < all.len()
            &&& all.take(front.len() as int) == front
            &&& valid_utf8(all[front.len() as int])
            &&& urls.dom().contains(decode_utf8(all[front.len() as int]))
        },
{
    let (all, front) = (paths::components(path), paths::components(docs_dir));
    if front.len() <= all.len() {
        assert(all.take(front.len() as int) =~= all.subrange(0, front.len() as int));
    }
    if front.len() < all.len() {
        assert(all.skip(front.len() as int)[0] == all[front.len() as int]);
    }
}

/// The address of a page is that of its repository without the slashes at its
/// end, and behind it, each followed by a slash, the names of the directories on
/// the way to the page and its own without the ending `.md`. A directory `docs`
/// right below the repository does not count.
pub proof fn law_address_of_page(
    docs_dir: Seq<u8>,
    repo: Seq<char>,
    rel: Seq<u8>,
    dirs: Seq<Seq<char>>,
    stem: Seq<char>,
    base: Seq<char>,
    slashes: nat,
    urls: Map<Seq<char>, Seq<char>>,
)
    requires
        repo.len() > 0,
        !repo.contains('/'),
        repo != "."@,
        !paths::is_absolute(rel),
        !paths::starts_at_dot(rel),
        ({
            let names = encoded(dirs).push(encode_utf8(stem + ".md"@));
            ||| paths::components(rel) == seq![encode_utf8("docs"@)] + names
            ||| paths::components(rel) == names
        }),
        dirs.len() > 0 ==> dirs[0] != "docs"@,
        base.len() > 0 ==> base.last() != '/',
        urls.dom().contains(repo),
        urls[repo] == base + Seq::new(slashes, |i: int| '/'),
    ensures
        ({
            let path = paths::join_paths(paths::join_paths(docs_dir, encode_utf8(repo)), rel);
            page_urls::page_url(path, docs_dir, urls) == Some(
                base + seq!['/'] + slashed(dirs) + stem + seq!['/'],
            )
        }),
{
    reveal_strlit(".md");
    page_urls::law_page_of_repository(docs_dir, repo, rel, urls);
    text_laws::law_run_at_end(base, '/', slashes);
    let names = encoded(dirs).push(encode_utf8(stem + ".md"@));
    lemma_not_md();
    law_parts_of_page(dirs, stem, "x"@);
    assert(names[0] != encode_utf8("docs"@)) by {
        lemma_first_name(dirs, stem);
    }
    law_docs_left_out(names);
    lemma_slashed(dirs, stem);
    let parts = dirs.push(stem);
    assert(page_urls::page_parts(paths::components(rel)) == parts);
    let j = text::join(parts, seq!['/']);
    assert(j == slashed(dirs) + stem);
    assert(base + seq!['/'] + j + seq!['/'] =~= base + seq!['/'] + slashed(dirs) + stem
        + seq!['/']);
}

/// Some names, each followed by a slash.
pub open spec fn slashed(names: Seq<Seq<char>>) -> Seq<char>
    decreases names.len(),
{
    if names.len() == 0 {
        Seq::empty()
    } else {
        slashed(names.drop_last()) + names.last() + seq!['/']
    }
}

proof fn lemma_slashed(dirs: Seq<Seq<char>>, last: Seq<char>)
    ensures
        text::join(dirs.push(last), seq!['/']) == slashed(dirs) + last,
    decreases dirs.len(),
{
    let sep = seq!['/'];
    text_laws::law_joined(dirs, last, sep);
    if dirs.len() == 0 {
        assert(dirs.push(last) =~= seq![last]);
        assert(slashed(dirs) + last =~= last);
    } else {
        lemma_slashed(dirs.drop_last(), dirs.last());
        assert(dirs.drop_last().push(dirs.last()) =~= dirs);
    }
}

proof fn lemma_not_md()
    ensures
        !".md"@.is_suffix_of("x"@),
        "x"@ != "docs"@,
{
    reveal_strlit(".md");
    reveal_strlit("x");
    reveal_strlit("docs");
    assert("x"@.len() != "docs"@.len());
}

proof fn lemma_first_name(dirs: Seq<Seq<char>>, stem: Seq<char>)
    requires
        dirs.len() > 0 ==> dirs[0] != "docs"@,
    ensures
        encoded(dirs).push(encode_utf8(stem + ".md"@))[0] != encode_utf8("docs"@),
{
    reveal_strlit(".md");
    reveal_strlit("docs");
    let long = stem + ".md"@;
    assert(long.last() == 'd' && "docs"@.last() == 's');
    let first = if dirs.len() > 0 {
        dirs[0]
    } else {
        long
    };
    encode_utf8_decode_utf8(first);
    encode_utf8_decode_utf8("docs"@);
}

/// Two pages of one repository in the same directory have different addresses if
/// their names differ.
pub proof fn law_addresses_differ(
    docs_dir: Seq<u8>,
    repo: Seq<char>,
    rel_a: Seq<u8>,
    rel_b: Seq<u8>,
    dirs: Seq<Seq<char>>,
    a: Seq<char>,
    b: Seq<char>,
    urls: Map<Seq<char>, Seq<char>>,
)
    requires
        a != b,
        repo.len() > 0,
        !repo.contains('/'),
        repo != "."@,
        !paths::is_absolute(rel_a) && !paths::starts_at_dot(rel_a),
        !paths::is_absolute(rel_b) && !paths::starts_at_dot(rel_b),
        paths::components(rel_a) == encoded(dirs).push(encode_utf8(a + ".md"@)),
        paths::components(rel_b) == encoded(dirs).push(encode_utf8(b + ".md"@)),
        dirs.len() > 0 ==> dirs[0] != "docs"@,
        urls.dom().contains(repo),
    ensures
        ({
            let checkout = paths::join_paths(docs_dir, encode_utf8(repo));
            page_urls::page_url(paths::join_paths(checkout, rel_a), docs_dir, urls)
                != page_urls::page_url(paths::join_paths(checkout, rel_b), docs_dir, urls)
        }),
{
    let p = text::is_char('/');
    let url = urls[repo];
    text::lemma_back_run(url, p, 0);
    let n = text::back_run(url, p);
    let base = url.take(url.len() - n);
    let run = Seq::new(n, |i: int| '/');
    assert(url =~= base + run) by {
        assert forall|i: int| base.len() <= i < url.len() implies url[i] == '/' by {
            assert(p(url[i]));
        }
    }
    if base.len() > 0 {
        assert(!p(url[url.len() - n - 1]));
    }
    law_address_of_page(docs_dir, repo, rel_a, dirs, a, base, n, urls);
    law_address_of_page(docs_dir, repo, rel_b, dirs, b, base, n, urls);
    let front = base + seq!['/'] + slashed(dirs);
    let (x, y) = (front + a + seq!['/'], front + b + seq!['/']);
    if x == y {
        assert(x.len() == front.len() + a.len() + 1);
        assert(y.len() == front.len() + b.len() + 1);
        assert(x.subrange(front.len() as int, front.len() as int + a.len()) =~= a);
        assert(y.subrange(front.len() as int, front.len() as int + b.len()) =~= b);
    }
}

} // verus!
