//! Ignore patterns: one regular expression per non-blank line of an ignore
//! file; a path is left out when any pattern matches anywhere in it.

use vstd::prelude::*;
use crate::text::{chars_of, split_on, string_of};
use crate::tree::DirEntry;

verus! {

#[verifier::external_type_specification]
#[verifier::external_body]
pub struct ExRegex(regex::Regex);

/// Whether `pattern` is a regular expression that `regex` accepts.
pub uninterp spec fn regex_valid(pattern: Seq<char>) -> bool;

/// Whether the regular expression `pattern` matches somewhere in `haystack`.
pub uninterp spec fn regex_finds(pattern: Seq<char>, haystack: Seq<char>) -> bool;

/// A line without one trailing carriage return, as `str::lines` gives it.
pub open spec fn strip_cr(line: Seq<char>) -> Seq<char> {
    if line.len() > 0 && line.last() == '\r' {
        line.drop_last()
    } else {
        line
    }
}

/// A space, tab, carriage return, line feed, vertical tab or form feed.
pub open spec fn is_space(c: char) -> bool {
    c == ' ' || c == '\t' || c == '\r' || c == '\n' || c == '\u{b}' || c == '\u{c}'
}

/// A line with nothing but spaces in it, or nothing at all.
pub open spec fn is_blank(line: Seq<char>) -> bool {
    forall|i: int| 0 <= i < line.len() ==> is_space(#[trigger] line[i])
}

/// The non-blank lines, in order.
pub open spec fn pattern_lines(lines: Seq<Seq<char>>) -> Seq<Seq<char>>
    decreases lines.len(),
{
    if lines.len() == 0 {
        Seq::empty()
    } else {
        let prev = pattern_lines(lines.drop_last());
        let l = strip_cr(lines.last());
        if is_blank(l) {
            prev
        } else {
            prev.push(l)
        }
    }
}

/// The patterns of an ignore file's text.
pub open spec fn ignore_file_patterns(text: Seq<char>) -> Seq<Seq<char>> {
    pattern_lines(split_on(text, '\n'))
}

pub open spec fn strings_view(v: Seq<String>) -> Seq<Seq<char>> {
    v.map_values(|s: String| s@)
}

fn push_pattern_line(line: &Vec<char>, out: &mut Vec<String>)
    ensures
        strings_view(final(out)@) == ({
            let l = strip_cr(line@);
            if is_blank(l) {
                strings_view(old(out)@)
            } else {
                strings_view(old(out)@).push(l)
            }
        }),
{
    let mut n: usize = line.len();
    if n > 0 && line[n - 1] == '\r' {
        n -= 1;
    }
    let mut b: usize = 0;
    while b < n && (line[b] == ' ' || line[b] == '\t' || line[b] == '\r' || line[b] == '\n' || line[b]
        == '\u{b}' || line[b] == '\u{c}')
        invariant
            b <= n <= line@.len(),
            forall|j: int| 0 <= j < b ==> is_space(#[trigger] line@[j]),
        decreases n - b,
    {
        b += 1;
    }
    proof {
        assert(strip_cr(line@) =~= line@.subrange(0, n as int));
    }
    if b == n {
        assert(is_blank(strip_cr(line@)));
        return;
    }
    assert(!is_space(strip_cr(line@)[b as int]));
    let mut kept: Vec<char> = Vec::new();
    let mut i: usize = 0;
    while i < n
        invariant
            i <= n <= line@.len(),
            kept@ == line@.subrange(0, i as int),
        decreases n - i,
    {
        kept.push(line[i]);
        proof {
            assert(kept@ =~= line@.subrange(0, i + 1));
        }
        i += 1;
    }
    proof {
        assert(kept@ =~= strip_cr(line@));
    }
    out.push(string_of(&kept));
    proof {
        assert(strings_view(out@) =~= strings_view(old(out)@).push(strip_cr(line@)));
    }
}

/// The patterns of an ignore file: its non-blank lines, each without a
/// trailing carriage return.
pub fn parse_ignore_file(content: &str) -> (r: Vec<String>)
    ensures
        strings_view(r@) == ignore_file_patterns(content@),
{
    let chars = chars_of(content);
    let mut out: Vec<String> = Vec::new();
    let mut line: Vec<char> = Vec::new();
    let ghost mut done: Seq<Seq<char>> = Seq::empty();
    let mut i: usize = 0;
    proof {
        assert(chars@.take(0) =~= Seq::<char>::empty());
        assert(line@ =~= Seq::<char>::empty());
        assert(split_on(chars@.take(0), '\n') =~= done.push(line@));
        assert(strings_view(out@) =~= Seq::<Seq<char>>::empty());
    }
    while i < chars.len()
        invariant
            i <= chars@.len(),
            split_on(chars@.take(i as int), '\n') == done.push(line@),
            strings_view(out@) == pattern_lines(done),
        decreases chars.len() - i,
    {
        let c = chars[i];
        proof {
            assert(chars@.take(i + 1).drop_last() =~= chars@.take(i as int));
            assert(chars@.take(i + 1).last() == c);
        }
        if c == '\n' {
            push_pattern_line(&line, &mut out);
            proof {
                assert(done.push(line@).drop_last() =~= done);
                done = done.push(line@);
            }
            line = Vec::new();
            proof {
                assert(split_on(chars@.take(i + 1), '\n') =~= done.push(line@));
            }
        } else {
            line.push(c);
            proof {
                let prev = split_on(chars@.take(i as int), '\n');
                assert(prev.update(prev.len() - 1, prev.last().push(c)) =~= done.push(line@));
            }
        }
        i += 1;
    }
    push_pattern_line(&line, &mut out);
    proof {
        assert(chars@.take(chars@.len() as int) =~= chars@);
        assert(done.push(line@).drop_last() =~= done);
    }
    out
}

/// A compiled pattern together with its source text. The fields are
/// private: `compile` is the one constructor, so `re` is always the
/// compilation of `text`.
pub struct IgnorePattern {
    text: String,
    re: regex::Regex,
}

/// Relies on `regex::Regex::new`: it compiles exactly the patterns that it
/// accepts (valid syntax, within its default size limit).
#[verifier::external_body]
fn regex_new(pattern: &str) -> (r: Option<regex::Regex>)
    ensures
        r is Some == regex_valid(pattern@),
{
    regex::Regex::new(pattern).ok()
}

/// The source texts of a sequence of patterns.
pub open spec fn sources_of(ps: Seq<IgnorePattern>) -> Seq<Seq<char>> {
    ps.map_values(|p: IgnorePattern| p.source())
}

impl IgnorePattern {
    pub closed spec fn source(&self) -> Seq<char> {
        self.text@
    }

    /// Compiles `text`; `None` where it is not a valid regular expression.
    pub fn compile(text: &str) -> (r: Option<IgnorePattern>)
        ensures
            r is Some == regex_valid(text@),
            r matches Some(p) ==> p.source() == text@,
    {
        match regex_new(text) {
            Some(re) => Some(IgnorePattern { text: text.to_owned(), re }),
            None => None,
        }
    }

    /// Relies on `regex::Regex::is_match` on the expression compiled from
    /// `self.text`: whether it matches anywhere in `haystack`.
    #[verifier::external_body]
    pub(crate) fn is_match(&self, haystack: &str) -> (r: bool)
        ensures
            r == regex_finds(self.source(), haystack@),
    {
        self.re.is_match(haystack)
    }
}

/// The compiled patterns of one run, compiled once and shared by every test.
pub struct IgnoreMatcher {
    patterns: Vec<IgnorePattern>,
}

impl IgnoreMatcher {
    pub closed spec fn sources(&self) -> Seq<Seq<char>> {
        sources_of(self.patterns@)
    }

    /// Whether some pattern matches somewhere in `path`.
    pub open spec fn ignores(&self, path: Seq<char>) -> bool {
        exists|i: int| 0 <= i < self.sources().len() && regex_finds(#[trigger] self.sources()[i], path)
    }

    /// A matcher with no patterns: it ignores nothing.
    pub fn none() -> (r: IgnoreMatcher)
        ensures
            r.sources() == Seq::<Seq<char>>::empty(),
            forall|p: Seq<char>| !r.ignores(p),
    {
        let r = IgnoreMatcher { patterns: Vec::new() };
        assert(sources_of(r.patterns@) =~= Seq::<Seq<char>>::empty());
        r
    }

    /// Compiles every pattern, in order. A pattern that is not a valid
    /// regular expression stops the run: the first such one is returned.
    pub fn compile(patterns: &Vec<String>) -> (r: Result<IgnoreMatcher, String>)
        ensures
            match r {
                Ok(m) => m.sources() == strings_view(patterns@) && forall|i: int|
                    0 <= i < patterns@.len() ==> regex_valid(#[trigger] patterns@[i]@),
                Err(bad) => exists|i: int|
                    0 <= i < patterns@.len() && patterns@[i]@ == bad@ && !regex_valid(
                        patterns@[i]@,
                    ) && forall|j: int| 0 <= j < i ==> regex_valid(#[trigger] patterns@[j]@),
            },
    {
        let mut compiled: Vec<IgnorePattern> = Vec::new();
        let mut i: usize = 0;
        while i < patterns.len()
            invariant
                i <= patterns@.len(),
                compiled@.len() == i,
                sources_of(compiled@) == strings_view(patterns@.take(i as int)),
                forall|j: int| 0 <= j < i ==> regex_valid(#[trigger] patterns@[j]@),
            decreases patterns.len() - i,
        {
            match IgnorePattern::compile(patterns[i].as_str()) {
                Some(p) => {
                    let ghost prev = compiled@;
                    let ghost src = p.source();
                    compiled.push(p);
                    proof {
                        assert forall|j: int| 0 <= j < i + 1 implies #[trigger] sources_of(compiled@)[j]
                            == strings_view(patterns@.take(i + 1))[j] by {
                            if j < i {
                                assert(sources_of(prev)[j] == strings_view(patterns@.take(i as int))[j]);
                                assert(compiled@[j] == prev[j]);
                            } else {
                                assert(compiled@[j].source() == src);
                            }
                        }
                        assert(sources_of(compiled@) =~= strings_view(patterns@.take(i + 1)));
                    }
                },
                None => {
                    return Err(patterns[i].clone());
                },
            }
            i += 1;
        }
        let m = IgnoreMatcher { patterns: compiled };
        proof {
            assert(m.sources() == sources_of(compiled@));
            assert(patterns@.take(patterns@.len() as int) =~= patterns@);
        }
        Ok(m)
    }

    /// Whether the path is to be left out of a scan.
    pub fn is_ignored(&self, path: &str) -> (r: bool)
        ensures
            r == self.ignores(path@),
    {
        let mut i: usize = 0;
        while i < self.patterns.len()
            invariant
                i <= self.patterns@.len(),
                self.sources().len() == self.patterns@.len(),
                forall|j: int| 0 <= j < i ==> !regex_finds(#[trigger] self.sources()[j], path@),
            decreases self.patterns.len() - i,
        {
            if self.patterns[i].is_match(path) {
                assert(regex_finds(self.sources()[i as int], path@));
                return true;
            }
            i += 1;
        }
        false
    }
}

/// The entries of `s` that no pattern of `m` matches, in order.
pub open spec fn kept(m: &IgnoreMatcher, s: Seq<DirEntry>) -> Seq<DirEntry> {
    s.filter(|e: DirEntry| !m.ignores(e.path@))
}

/// The entries of one directory listing that no pattern matches, in their
/// order: an ignored directory is never entered, so nothing below it is
/// ever listed.
pub fn kept_entries(matcher: &IgnoreMatcher, entries: Vec<DirEntry>) -> (r: Vec<DirEntry>)
    ensures
        r@ == kept(matcher, entries@),
        forall|i: int| 0 <= i < r@.len() ==> !matcher.ignores(#[trigger] r@[i].path@),
{
    let ghost orig = entries@;
    let n: usize = entries.len();
    let mut rest = entries;
    let mut out: Vec<DirEntry> = Vec::new();
    let mut k: usize = 0;
    proof {
        reveal(Seq::filter);
        assert(orig.take(0) =~= Seq::<DirEntry>::empty());
        assert(rest@ =~= orig.skip(0));
    }
    while rest.len() > 0
        invariant
            k <= orig.len(),
            rest@ == orig.skip(k as int),
            k + rest@.len() == orig.len(),
            orig.len() == n,
            out@ == kept(matcher, orig.take(k as int)),
        decreases rest.len(),
    {
        let e = rest.remove(0);
        proof {
            reveal(Seq::filter);
            assert(orig.take(k + 1).drop_last() =~= orig.take(k as int));
            assert(orig.take(k + 1).last() == e);
            assert(rest@ =~= orig.skip(k + 1));
        }
        if !matcher.is_ignored(e.path.as_str()) {
            out.push(e);
        }
        k += 1;
    }
    proof {
        assert(orig.take(k as int) =~= orig);
        assert forall|i: int| 0 <= i < out@.len() implies !matcher.ignores(#[trigger] out@[i].path@) by {
            orig.lemma_filter_pred(|e: DirEntry| !matcher.ignores(e.path@), i);
        }
    }
    out
}

} // verus!
