//! Path filters of backup items: a list of `+ glob` / `- glob` rules, the first matching rule
//! deciding whether a path is backed up.

use vstd::prelude::*;

use crate::text::{chars_of, debug_quoted, debug_str, lines, lines_spec, string_of, views};

verus! {

/// Whether the glob compiles, as `globset::GlobBuilder::build` decides with a literal
/// separator and backslash escapes: `None` if it does, the error message if it does not.
pub uninterp spec fn glob_build_error(glob: Seq<char>) -> Option<Seq<char>>;

/// Whether a set holding only the (built) glob compiles, as
/// `globset::GlobSetBuilder::build` decides: `None` if it does, the error message if it
/// does not (its matcher is then too large).
pub uninterp spec fn glob_set_error(glob: Seq<char>) -> Option<Seq<char>>;

/// Whether `path` matches the glob, as `globset::GlobSet::is_match` decides for the set
/// that holds only that glob (built with a literal separator and backslash escapes).
pub uninterp spec fn glob_matches(glob: Seq<char>, path: Seq<char>) -> bool;

/// The length (in characters) that globs stay under: a set's prefix or suffix literal is
/// compiled by `globset` with an unchecked Aho-Corasick construction, which holds for
/// literals of fewer than 2^31 bytes. (Globs this long exceed the 10 MiB regex size limit
/// of `globset::Glob::compile_matcher` long before.)
pub const MAX_GLOB_LEN: usize = 0x1000_0000;

/// Whether a glob can be used: it builds, and so does a set that holds it.
pub open spec fn glob_compiles(glob: Seq<char>) -> bool {
    glob_build_error(glob) is None && glob_set_error(glob) is None
}

/// `globset::GlobBuilder::build` with a literal separator and backslash escapes: whether the
/// glob compiles, and the error message if it does not.
#[verifier::external_body]
fn build_glob(glob: &str) -> (r: Result<(), String>)
    ensures
        r is Ok <==> glob_build_error(glob@) is None,
        r matches Err(e) ==> glob_build_error(glob@) == Some(e@),
{
    match globset::GlobBuilder::new(glob).literal_separator(true).backslash_escape(true).build() {
        Ok(_) => Ok(()),
        Err(e) => Err(e.to_string()),
    }
}

/// `globset::GlobSetBuilder::build` for the set that holds only the glob (built as in
/// `build_glob`): whether it compiles, and the error message if it does not.
#[verifier::external_body]
fn build_glob_set(glob: &str) -> (r: Result<(), String>)
    requires
        glob_build_error(glob@) is None,
        glob@.len() < MAX_GLOB_LEN,
    ensures
        r is Ok <==> glob_set_error(glob@) is None,
        r matches Err(e) ==> glob_set_error(glob@) == Some(e@),
{
    match globset::GlobBuilder::new(glob).literal_separator(true).backslash_escape(true).build() {
        Ok(g) => match globset::GlobSetBuilder::new().add(g).build() {
            Ok(_) => Ok(()),
            Err(e) => Err(e.to_string()),
        },
        Err(e) => Err(e.to_string()),
    }
}

/// `globset::GlobSet::is_match` for the set that holds only the glob (built as in
/// `build_glob`).
#[verifier::external_body]
fn glob_is_match(glob: &str, path: &str) -> (r: bool)
    requires
        glob_compiles(glob@),
        glob@.len() < MAX_GLOB_LEN,
    ensures
        r == glob_matches(glob@, path@),
{
    match globset::GlobBuilder::new(glob).literal_separator(true).backslash_escape(true).build() {
        Ok(g) => match globset::GlobSetBuilder::new().add(g).build() {
            Ok(set) => set.is_match(path),
            Err(_) => false,
        },
        Err(_) => false,
    }
}

/// Whether a character is a blank of a rule line.
pub open spec fn is_blank(c: char) -> bool {
    c == ' ' || c == '\t'
}

/// The number of blanks at the start of `s`.
pub open spec fn leading_blanks(s: Seq<char>) -> nat
    decreases s.len(),
{
    if s.len() > 0 && is_blank(s[0]) {
        1 + leading_blanks(s.drop_first())
    } else {
        0
    }
}

/// Where a rule ends: trailing blanks are dropped, but a blank escaped by a backslash is kept
/// along with what comes before it.
pub open spec fn rule_end(t: Seq<char>) -> nat
    decreases t.len(),
{
    if t.len() == 0 {
        0
    } else if !is_blank(t.last()) {
        t.len()
    } else if t.len() >= 2 && t[t.len() - 2] == '\\' {
        t.len()
    } else {
        rule_end(t.drop_last())
    }
}

/// The glob and the allow flag of a rule: `+ glob` allows, `- glob` denies.
pub open spec fn parse_rule_spec(rule: Seq<char>) -> Option<(Seq<char>, bool)> {
    if rule.len() >= 3 && (rule[0] == '+' || rule[0] == '-') && rule[1] == ' ' {
        Some((rule.skip(2), rule[0] == '+'))
    } else {
        None
    }
}

/// A line without its leading blanks.
pub open spec fn trimmed_line(line: Seq<char>) -> Seq<char> {
    line.skip(leading_blanks(line) as int)
}

/// Whether a line holds no rule: it is blank or a comment.
pub open spec fn is_skipped_line(line: Seq<char>) -> bool {
    let t = trimmed_line(line);
    t.len() == 0 || t[0] == '#'
}

/// The rule text of a line that is not skipped.
pub open spec fn rule_text(line: Seq<char>) -> Seq<char> {
    let t = trimmed_line(line);
    t.take(rule_end(t) as int)
}

/// What a rule line gives: `Ok(None)` for a blank or comment line, the rule, or an error.
pub open spec fn parse_rule_line_spec(line: Seq<char>) -> Result<Option<(Seq<char>, bool)>, ()> {
    if is_skipped_line(line) {
        Ok(None)
    } else {
        match parse_rule_spec(rule_text(line)) {
            Some(rule) => Ok(Some(rule)),
            None => Err(()),
        }
    }
}

/// The characters of "Invalid filter rule: ".
pub open spec fn invalid_rule_prefix() -> Seq<char> {
    seq!['I', 'n', 'v', 'a', 'l', 'i', 'd', ' ', 'f', 'i', 'l', 't', 'e', 'r', ' ', 'r', 'u', 'l', 'e', ':', ' ']
}

/// Parses a rule such as `+ glob` or `- glob`.
pub fn parse_rule(rule: &str) -> (r: Option<(String, bool)>)
    ensures
        r is Some <==> parse_rule_spec(rule@) is Some,
        r matches Some((glob, allow)) ==> parse_rule_spec(rule@) == Some((glob@, allow)),
{
    let chars = chars_of(rule);
    if chars.len() < 3 || !(chars[0] == '+' || chars[0] == '-') || chars[1] != ' ' {
        return None;
    }
    let allow = chars[0] == '+';
    let glob = crate::text::sub_vec(chars.as_slice(), 2, chars.len());
    assert(glob@ =~= rule@.skip(2));
    Some((string_of(glob.as_slice()), allow))
}

/// Parses a line of a filter specification: `None` for a blank or comment line.
pub fn parse_rule_line(line: &str) -> (r: Result<Option<(String, bool)>, String>)
    ensures
        r is Ok <==> parse_rule_line_spec(line@) is Ok,
        r matches Ok(None) ==> parse_rule_line_spec(line@) == Ok::<Option<(Seq<char>, bool)>, ()>(None),
        r matches Ok(Some((glob, allow))) ==> parse_rule_line_spec(line@) == Ok::<Option<(Seq<char>, bool)>, ()>(Some((glob@, allow))),
        r matches Err(e) ==> e@ == invalid_rule_prefix() + debug_quoted(rule_text(line@)),
{
    let chars = chars_of(line);
    let mut start: usize = 0;
    assert(line@.skip(0) =~= line@);
    while start < chars.len() && (chars[start] == ' ' || chars[start] == '\t')
        invariant
            start <= chars@.len(),
            chars@ == line@,
            leading_blanks(line@) == start + leading_blanks(line@.skip(start as int)),
        decreases chars@.len() - start,
    {
        proof {
            let rest = line@.skip(start as int);
            assert(rest.drop_first() =~= line@.skip(start + 1));
        }
        start += 1;
    }
    proof {
        let rest = line@.skip(start as int);
        assert(leading_blanks(rest) == 0);
    }
    let ghost t = trimmed_line(line@);
    assert(t =~= chars@.skip(start as int));
    if start == chars.len() || chars[start] == '#' {
        return Ok(None);
    }
    let mut end: usize = chars.len();
    assert(t.take(end - start) =~= t);
    while end > start + 1 && (chars[end - 1] == ' ' || chars[end - 1] == '\t') && chars[end - 2] != '\\'
        invariant
            start < end <= chars@.len(),
            chars@ == line@,
            t == chars@.skip(start as int),
            rule_end(t) == rule_end(t.take(end - start)),
        decreases end,
    {
        proof {
            let u = t.take(end - start);
            assert(u.drop_last() =~= t.take(end - start - 1));
            assert(u.last() == chars@[end - 1]);
            assert(u[u.len() - 2] == chars@[end - 2]);
        }
        end -= 1;
    }
    proof {
        let u = t.take(end - start);
        assert(u.last() == chars@[end - 1]);
        if end == start + 1 {
            assert(!is_blank(u.last()));
        } else {
            assert(u[u.len() - 2] == chars@[end - 2]);
        }
        assert(rule_end(u) == u.len());
        assert(t.take(rule_end(t) as int) =~= chars@.subrange(start as int, end as int));
    }
    let rule = string_of(crate::text::sub_vec(chars.as_slice(), start, end).as_slice());
    match parse_rule(rule.as_str()) {
        Some(rule) => Ok(Some(rule)),
        None => {
            let mut message: Vec<char> = Vec::new();
            message.push('I'); message.push('n'); message.push('v'); message.push('a');
            message.push('l'); message.push('i'); message.push('d'); message.push(' ');
            message.push('f'); message.push('i'); message.push('l'); message.push('t');
            message.push('e'); message.push('r'); message.push(' '); message.push('r');
            message.push('u'); message.push('l'); message.push('e'); message.push(':');
            message.push(' ');
            let quoted = debug_str(rule.as_str());
            let quoted = chars_of(quoted.as_str());
            let mut i: usize = 0;
            let ghost prefix = message@;
            while i < quoted.len()
                invariant
                    i <= quoted@.len(),
                    message@ == prefix + quoted@.take(i as int),
                decreases quoted@.len() - i,
            {
                message.push(quoted[i]);
                i += 1;
                assert(message@ =~= prefix + quoted@.take(i as int));
            }
            assert(quoted@.take(i as int) =~= quoted@);
            assert(prefix =~= invalid_rule_prefix());
            Err(string_of(message.as_slice()))
        },
    }
}

/// `s` with every non-overlapping occurrence of `pat` replaced by `rep`, from left to right,
/// as `str::replace` does.
pub open spec fn replace_spec(s: Seq<char>, pat: Seq<char>, rep: Seq<char>) -> Seq<char>
    decreases s.len(),
{
    if pat.len() == 0 || s.len() < pat.len() {
        s
    } else if s.take(pat.len() as int) == pat {
        rep + replace_spec(s.skip(pat.len() as int), pat, rep)
    } else {
        seq![s[0]] + replace_spec(s.skip(1), pat, rep)
    }
}

/// Replaces every occurrence of `pat` in `s` by `rep`, from left to right.
pub fn replace(s: &[char], pat: &[char], rep: &[char]) -> (r: Vec<char>)
    requires
        pat@.len() > 0,
    ensures
        r@ == replace_spec(s@, pat@, rep@),
{
    let mut out: Vec<char> = Vec::new();
    let mut i: usize = 0;
    assert(s@.skip(0) =~= s@);
    while i < s.len() && s.len() - i >= pat.len()
        invariant
            i <= s@.len(),
            pat@.len() > 0,
            out@ + replace_spec(s@.skip(i as int), pat@, rep@) == replace_spec(s@, pat@, rep@),
        decreases s@.len() - i,
    {
        let ghost rest = s@.skip(i as int);
        let mut matched = true;
        let mut k: usize = 0;
        while k < pat.len()
            invariant
                k <= pat@.len(),
                i + pat.len() <= s.len(),
                matched == (forall|j: int| 0 <= j < k ==> s@[i + j] == pat@[j]),
            decreases pat@.len() - k,
        {
            if s[i + k] != pat[k] {
                matched = false;
            }
            k += 1;
        }
        proof {
            if matched {
                assert(rest.take(pat@.len() as int) =~= pat@);
            } else {
                let j = choose|j: int| 0 <= j < pat@.len() && s@[i + j] != pat@[j];
                assert(rest.take(pat@.len() as int)[j] != pat@[j]);
            }
        }
        if matched {
            let ghost before = out@;
            let mut k: usize = 0;
            while k < rep.len()
                invariant
                    k <= rep@.len(),
                    out@ == before + rep@.take(k as int),
                decreases rep@.len() - k,
            {
                out.push(rep[k]);
                k += 1;
                assert(out@ =~= before + rep@.take(k as int));
            }
            proof {
                assert(rep@.take(k as int) =~= rep@);
                assert(rest.skip(pat@.len() as int) =~= s@.skip(i + pat@.len()));
                assert(before + (rep@ + replace_spec(s@.skip(i + pat@.len()), pat@, rep@)) =~= out@ + replace_spec(s@.skip(i + pat@.len()), pat@, rep@));
            }
            i = i + pat.len();
        } else {
            let ghost before = out@;
            out.push(s[i]);
            proof {
                assert(rest.skip(1) =~= s@.skip(i + 1));
                assert(before + (seq![s@[i as int]] + replace_spec(s@.skip(i + 1), pat@, rep@)) =~= out@ + replace_spec(s@.skip(i + 1), pat@, rep@));
            }
            i = i + 1;
        }
    }
    proof {
        let rest = s@.skip(i as int);
        assert(replace_spec(rest, pat@, rep@) == rest);
        assert(out@ + rest =~= out@ + s@.skip(i as int));
    }
    let mut j = i;
    while j < s.len()
        invariant
            i <= j <= s@.len(),
            out@ + s@.skip(j as int) == replace_spec(s@, pat@, rep@),
        decreases s@.len() - j,
    {
        let ghost before = out@;
        out.push(s[j]);
        assert(before + s@.skip(j as int) =~= out@ + s@.skip(j + 1));
        j += 1;
    }
    assert(out@ + s@.skip(j as int) =~= out@);
    out
}

/// A glob with the `\t`, `\n`, `\r` and `\ ` sequences turned into the characters they stand
/// for (the glob syntax itself only escapes its own control characters).
pub open spec fn unescape_glob(glob: Seq<char>) -> Seq<char> {
    replace_spec(
        replace_spec(
            replace_spec(replace_spec(glob, seq!['\\', 't'], seq!['\t']), seq!['\\', 'n'], seq!['\n']),
            seq!['\\', 'r'],
            seq!['\r'],
        ),
        seq!['\\', ' '],
        seq![' '],
    )
}

fn one(a: char) -> (r: Vec<char>)
    ensures
        r@ == seq![a],
{
    let mut r = Vec::new();
    r.push(a);
    assert(r@ =~= seq![a]);
    r
}

fn two(a: char, b: char) -> (r: Vec<char>)
    ensures
        r@ == seq![a, b],
{
    let mut r = Vec::new();
    r.push(a);
    r.push(b);
    assert(r@ =~= seq![a, b]);
    r
}

/// A filter rule: the glob that it matches and whether it allows what it matches.
pub struct Rule {
    glob: String,
    allow: bool,
}

impl Rule {
    #[verifier::type_invariant]
    spec fn compiles(self) -> bool {
        glob_compiles(self.glob@) && self.glob@.len() < MAX_GLOB_LEN
    }

    /// The (unescaped) glob of the rule.
    pub closed spec fn glob(self) -> Seq<char> {
        self.glob@
    }

    /// Whether the rule allows what it matches.
    pub closed spec fn allow(self) -> bool {
        self.allow
    }

    /// A rule for a glob as written in a filter specification.
    pub fn new(glob: &str, allow: bool) -> (r: Result<Rule, String>)
        requires
            glob@.len() < MAX_GLOB_LEN,
        ensures
            r is Ok <==> glob_compiles(unescape_glob(glob@)),
            r matches Ok(rule) ==> rule.glob() == unescape_glob(glob@) && rule.allow() == allow,
    {
        let chars = chars_of(glob);
        let a = replace(chars.as_slice(), two('\\', 't').as_slice(), one('\t').as_slice());
        let b = replace(a.as_slice(), two('\\', 'n').as_slice(), one('\n').as_slice());
        let c = replace(b.as_slice(), two('\\', 'r').as_slice(), one('\r').as_slice());
        let d = replace(c.as_slice(), two('\\', ' ').as_slice(), one(' ').as_slice());
        let unescaped = string_of(d.as_slice());
        assert(unescaped@ =~= unescape_glob(glob@));
        proof {
            lemma_unescape_not_longer(glob@);
        }
        let built = match build_glob(unescaped.as_str()) {
            Ok(()) => build_glob_set(unescaped.as_str()),
            Err(e) => Err(e),
        };
        match built {
            Ok(()) => Ok(Rule { glob: unescaped, allow }),
            Err(e) => {
                let mut message = String::from_str("Invalid glob (");
                message.append(debug_str(glob).as_str());
                message.append("): ");
                message.append(e.as_str());
                Err(message)
            },
        }
    }

    /// Whether the rule's glob matches `path`.
    pub fn matches(&self, path: &str) -> (r: bool)
        ensures
            r == glob_matches(self.glob(), path@),
    {
        proof {
            use_type_invariant(self);
        }
        glob_is_match(self.glob.as_str(), path)
    }
}

/// What a filter is: its rules, as (glob, allow) pairs, in order.
pub open spec fn rules_view(rules: Seq<Rule>) -> Seq<(Seq<char>, bool)> {
    rules.map_values(|r: Rule| (r.glob(), r.allow()))
}

/// The rules of a specification (glob validity aside), or `None` if a line is not a rule.
pub open spec fn spec_rules(lines: Seq<Seq<char>>) -> Option<Seq<(Seq<char>, bool)>>
    decreases lines.len(),
{
    if lines.len() == 0 {
        Some(Seq::empty())
    } else {
        match (spec_rules(lines.drop_last()), parse_rule_line_spec(lines.last())) {
            (Some(rules), Ok(None)) => Some(rules),
            (Some(rules), Ok(Some((glob, allow)))) => Some(rules.push((unescape_glob(glob), allow))),
            _ => None,
        }
    }
}

/// Whether every glob compiles.
pub open spec fn all_compile(rules: Seq<(Seq<char>, bool)>) -> bool {
    forall|i: int| 0 <= i < rules.len() ==> glob_compiles(#[trigger] rules[i].0)
}

/// The decision for a path: the allow flag of the first rule that matches it, or allow.
pub open spec fn first_match_allows(rules: Seq<(Seq<char>, bool)>, path: Seq<char>) -> bool
    decreases rules.len(),
{
    if rules.len() == 0 {
        true
    } else if glob_matches(rules[0].0, path) {
        rules[0].1
    } else {
        first_match_allows(rules.drop_first(), path)
    }
}

/// A path filter: the rules of a backup item.
pub struct PathFilter {
    rules: Vec<Rule>,
}

impl View for PathFilter {
    type V = Seq<(Seq<char>, bool)>;

    closed spec fn view(&self) -> Seq<(Seq<char>, bool)> {
        rules_view(self.rules@)
    }
}

impl Default for PathFilter {
    fn default() -> (r: PathFilter)
        ensures
            r@ == Seq::<(Seq<char>, bool)>::empty(),
    {
        let r = PathFilter { rules: Vec::new() };
        assert(r@ =~= Seq::<(Seq<char>, bool)>::empty());
        r
    }
}

impl PathFilter {
    /// A filter from its specification: one rule per line; blank lines and comments are
    /// skipped.
    pub fn new(spec: &str) -> (r: Result<PathFilter, String>)
        requires
            spec@.len() < MAX_GLOB_LEN,
        ensures
            r is Ok <==> (spec_rules(lines_spec(spec@)) is Some && all_compile(
                spec_rules(lines_spec(spec@))->0,
            )),
            r matches Ok(f) ==> f@ == spec_rules(lines_spec(spec@))->0,
    {
        let chars = chars_of(spec);
        let ls = lines(chars.as_slice());
        let ghost lv = lines_spec(spec@);
        let mut rules: Vec<Rule> = Vec::new();
        let mut i: usize = 0;
        while i < ls.len()
            invariant
                i <= ls@.len(),
                views(ls@) == lv,
                lv == lines_spec(spec@),
                spec@.len() < MAX_GLOB_LEN,
                spec_rules(lv.take(i as int)) == Some(rules_view(rules@)),
                all_compile(rules_view(rules@)),
            decreases ls@.len() - i,
        {
            proof {
                assert(views(ls@)[i as int] == ls@[i as int]@);
                assert(lv.take(i + 1).drop_last() =~= lv.take(i as int));
                assert(lv.take(i + 1).last() == lv[i as int]);
            }
            let line = string_of(ls[i].as_slice());
            assert(line@ == lv[i as int]);
            match parse_rule_line(line.as_str()) {
                Ok(Some((glob, allow))) => {
                    proof {
                        lemma_rule_glob_not_longer(line@);
                        crate::text::lemma_lines_not_longer(spec@, i as int);
                    }
                    assert(spec_rules(lv.take(i + 1)) == Some(rules_view(rules@).push((unescape_glob(glob@), allow))));
                    let rule = match Rule::new(glob.as_str(), allow) {
                        Ok(rule) => rule,
                        Err(e) => {
                            proof {
                                let v = rules_view(rules@).push((unescape_glob(glob@), allow));
                                assert(!glob_compiles(v[v.len() - 1].0));
                                lemma_rules_fail_later(lv, i + 1);
                            }
                            return Err(e);
                        },
                    };
                    let ghost before = rules@;
                    rules.push(rule);
                    proof {
                        assert(rules_view(rules@) =~= rules_view(before).push((unescape_glob(glob@), allow)));
                    }
                },
                Ok(None) => {},
                Err(e) => {
                    proof {
                        lemma_rules_none_later(lv, i + 1);
                    }
                    return Err(e);
                },
            }
            i += 1;
        }
        assert(lv.take(i as int) =~= lv);
        Ok(PathFilter { rules })
    }

    /// Whether a path (relative to the backup item) is backed up: the first rule that matches
    /// it decides; a path that no rule matches is backed up.
    pub fn check(&self, path: &str) -> (r: bool)
        ensures
            r == first_match_allows(self@, path@),
    {
        let mut i: usize = 0;
        assert(self@.skip(0) =~= self@);
        while i < self.rules.len()
            invariant
                i <= self.rules@.len(),
                first_match_allows(self@, path@) == first_match_allows(self@.skip(i as int), path@),
            decreases self.rules@.len() - i,
        {
            let rule = &self.rules[i];
            let ghost rest = self@.skip(i as int);
            assert(rest[0] == (rule.glob(), rule.allow()));
            if rule.matches(path) {
                return rule.allow;
            }
            assert(rest.drop_first() =~= self@.skip(i + 1));
            i += 1;
        }
        true
    }
}

proof fn lemma_rules_none_later(lines: Seq<Seq<char>>, i: int)
    requires
        0 <= i <= lines.len(),
        spec_rules(lines.take(i)) is None,
    ensures
        spec_rules(lines) is None,
    decreases lines.len() - i,
{
    if i < lines.len() {
        assert(lines.take(i + 1).drop_last() =~= lines.take(i));
        lemma_rules_none_later(lines, i + 1);
    } else {
        assert(lines.take(i) =~= lines);
    }
}

proof fn lemma_rules_fail_later(lines: Seq<Seq<char>>, i: int)
    requires
        0 <= i <= lines.len(),
        spec_rules(lines.take(i)) is Some,
        !all_compile(spec_rules(lines.take(i))->0),
    ensures
        !(spec_rules(lines) is Some && all_compile(spec_rules(lines)->0)),
    decreases lines.len() - i,
{
    if i < lines.len() {
        let t = lines.take(i + 1);
        assert(t.drop_last() =~= lines.take(i));
        let prev = spec_rules(lines.take(i))->0;
        if spec_rules(t) is Some {
            let next = spec_rules(t)->0;
            assert(prev.is_prefix_of(next));
            let k = choose|k: int| 0 <= k < prev.len() && !glob_compiles(#[trigger] prev[k].0);
            assert(next[k] == prev[k]);
            lemma_rules_fail_later(lines, i + 1);
        } else {
            lemma_rules_none_later(lines, i + 1);
        }
    } else {
        assert(lines.take(i) =~= lines);
    }
}

/// Replacing a pattern by something no longer never makes a text longer.
proof fn lemma_replace_not_longer(s: Seq<char>, pat: Seq<char>, rep: Seq<char>)
    requires
        rep.len() <= pat.len(),
    ensures
        replace_spec(s, pat, rep).len() <= s.len(),
    decreases s.len(),
{
    if pat.len() == 0 || s.len() < pat.len() {
    } else if s.take(pat.len() as int) == pat {
        lemma_replace_not_longer(s.skip(pat.len() as int), pat, rep);
    } else {
        lemma_replace_not_longer(s.skip(1), pat, rep);
    }
}

/// Unescaping a glob never makes it longer.
proof fn lemma_unescape_not_longer(glob: Seq<char>)
    ensures
        unescape_glob(glob).len() <= glob.len(),
{
    let a = replace_spec(glob, seq!['\\', 't'], seq!['\t']);
    let b = replace_spec(a, seq!['\\', 'n'], seq!['\n']);
    let c = replace_spec(b, seq!['\\', 'r'], seq!['\r']);
    lemma_replace_not_longer(glob, seq!['\\', 't'], seq!['\t']);
    lemma_replace_not_longer(a, seq!['\\', 'n'], seq!['\n']);
    lemma_replace_not_longer(b, seq!['\\', 'r'], seq!['\r']);
    lemma_replace_not_longer(c, seq!['\\', ' '], seq![' ']);
}

proof fn lemma_leading_blanks_bound(s: Seq<char>)
    ensures
        leading_blanks(s) <= s.len(),
    decreases s.len(),
{
    if s.len() > 0 && is_blank(s[0]) {
        lemma_leading_blanks_bound(s.drop_first());
    }
}

proof fn lemma_rule_end_bound(t: Seq<char>)
    ensures
        rule_end(t) <= t.len(),
    decreases t.len(),
{
    if t.len() > 0 && is_blank(t.last()) && !(t.len() >= 2 && t[t.len() - 2] == '\\') {
        lemma_rule_end_bound(t.drop_last());
    }
}

/// The glob of a rule line is no longer than the line.
proof fn lemma_rule_glob_not_longer(line: Seq<char>)
    ensures
        parse_rule_line_spec(line) matches Ok(Some((glob, _))) ==> glob.len() <= line.len(),
{
    lemma_leading_blanks_bound(line);
    lemma_rule_end_bound(trimmed_line(line));
}

} // verus!
