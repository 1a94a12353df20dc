//! Run parameters, and what is derived from them: the suffix set and the
//! lines of a word list.
use vstd::prelude::*;
use vstd::string::*;
use crate::dict::same_chars;
use crate::text::{chars_of, push_char, string_of, split_char, split_on, opt_view, starts_with_char, trim, trimmed, views};

verus! {

/// The parameters of one scan, fixed before the pipeline starts.
#[derive(Debug, Default)]
pub struct AppArgs {
    /// Base URL, absolute and ending in `/`.
    pub target: String,
    /// Number of workers.
    pub task_count: usize,
    pub request_method: String,
    pub output: String,
    /// Comma-separated file extensions.
    pub suffix: String,
    /// Whether `""` and `"/"` lead the suffix set.
    pub empty_suffix: bool,
    /// Longest candidate that enumeration produces.
    pub length: usize,
    pub user_agent: String,
    pub random_user_agent: bool,
    pub cookies: Option<String>,
    /// Raw `"Key: Value"` header lines.
    pub headers: Vec<String>,
    /// How many attempts each request gets.
    pub http_retries: usize,
    pub proxy: Option<String>,
    /// Present in dictionary mode.
    pub dict_path: Option<String>,
    pub black_words: Option<String>,
    /// Enumerate only the longest length instead of every length up to it.
    pub fixed_length: bool,
    pub debug_mode: bool,
    /// Pool for random user agents.
    pub user_agent_list: Vec<String>,
}

/// The suffix one comma-separated token stands for: `"."` and the token,
/// trimmed.
pub open spec fn token_suffix(t: Seq<char>) -> Seq<char> {
    seq!['.'] + trimmed(t)
}

/// The suffix set: `""` and `"/"` first when asked for, then the suffix of
/// each comma-separated token, in order. An empty suffix string stands for
/// no suffix at all: it gives `[""]`.
pub open spec fn suffix_set(empty_suffix: bool, suffix: Seq<char>) -> Seq<Seq<char>> {
    let head: Seq<Seq<char>> = if empty_suffix {
        seq![Seq::empty(), seq!['/']]
    } else {
        Seq::empty()
    };
    if suffix.len() == 0 {
        head.push(Seq::empty())
    } else {
        head + split_on(suffix, ',').map_values(|t: Seq<char>| token_suffix(t))
    }
}

/// A line worth keeping from a word list: not blank, not a `#` comment.
pub open spec fn keep_line(l: Seq<char>) -> bool {
    l.len() > 0 && l[0] != '#'
}

/// The trimmed lines of `content` that are neither blank nor comments.
pub open spec fn source_lines(content: Seq<char>) -> Seq<Seq<char>> {
    split_on(content, '\n').map_values(|l: Seq<char>| trimmed(l)).filter(|l: Seq<char>| keep_line(l))
}

/// The suffix set of `args`.
pub fn get_suffix_from_cli(args: &AppArgs) -> (r: Vec<String>)
    ensures
        views(r@) == suffix_set(args.empty_suffix, args.suffix@),
{
    let mut r: Vec<String> = Vec::new();
    if args.empty_suffix {
        r.push(String::new());
        let mut slash = String::new();
        push_char(&mut slash, '/');
        r.push(slash);
    }
    let ghost head = views(r@);
    if args.suffix.as_str().unicode_len() == 0 {
        let ghost old_r = r@;
        r.push(String::new());
        assert(views(r@) =~= views(old_r).push(Seq::<char>::empty()));
        return r;
    }
    let tokens = split_char(args.suffix.as_str(), ',');
    let ghost tail = split_on(args.suffix@, ',').map_values(|t: Seq<char>| token_suffix(t));
    let mut i: usize = 0;
    while i < tokens.len()
        invariant
            views(tokens@) == split_on(args.suffix@, ','),
            i <= tokens@.len(),
            args.suffix@.len() > 0,
            head + tail == suffix_set(args.empty_suffix, args.suffix@),
            tail == split_on(args.suffix@, ',').map_values(|t: Seq<char>| token_suffix(t)),
            tail.len() == tokens@.len(),
            views(r@) == head + tail.take(i as int),
        decreases tokens@.len() - i,
    {
        let t = trim(tokens[i].as_str());
        let mut s = String::new();
        push_char(&mut s, '.');
        s.append(t);
        assert(s@ == tail[i as int]) by {
            assert(tokens@[i as int]@ == views(tokens@)[i as int]);
            assert(s@ =~= seq!['.'] + trimmed(tokens@[i as int]@));
        }
        let ghost old_r = r@;
        r.push(s);
        assert(views(r@) =~= views(old_r).push(tail[i as int]));
        assert(tail.take(i as int + 1) =~= tail.take(i as int).push(tail[i as int]));
        i += 1;
        assert(views(r@) =~= head + tail.take(i as int));
    }
    assert(tail.take(i as int) =~= tail);
    r
}

/// The user agents of a list in the word-list format: one per kept line.
pub fn read_user_agent(content: &str) -> (r: Vec<String>)
    ensures
        views(r@) == source_lines(content@),
{
    word_list_lines(content)
}

/// The kept lines of `content`, trimmed, in order.
pub fn word_list_lines(content: &str) -> (r: Vec<String>)
    ensures
        views(r@) == source_lines(content@),
{
    let pieces = split_char(content, '\n');
    let ghost all = split_on(content@, '\n').map_values(|l: Seq<char>| trimmed(l));
    let mut r: Vec<String> = Vec::new();
    let mut i: usize = 0;
    while i < pieces.len()
        invariant
            views(pieces@) == split_on(content@, '\n'),
            all.len() == pieces@.len(),
            all == split_on(content@, '\n').map_values(|l: Seq<char>| trimmed(l)),
            i <= pieces@.len(),
            views(r@) == all.take(i as int).filter(|l: Seq<char>| keep_line(l)),
        decreases pieces@.len() - i,
    {
        let line = trim(pieces[i].as_str());
        assert(line@ == all[i as int]) by {
            assert(pieces@[i as int]@ == views(pieces@)[i as int]);
        }
        let ghost prev = all.take(i as int);
        assert(all.take(i as int + 1).drop_last() =~= prev);
        proof {
            reveal(Seq::filter);
        }
        let keep = line.unicode_len() > 0 && !starts_with_char(line, '#');
        if keep {
            let mut s = String::new();
            s.append(line);
            r.push(s);
            assert(views(r@) =~= all.take(i as int + 1).filter(|l: Seq<char>| keep_line(l)));
        } else {
            assert(views(r@) =~= all.take(i as int + 1).filter(|l: Seq<char>| keep_line(l)));
        }
        i += 1;
    }
    assert(all.take(i as int) =~= all);
    r
}

/// What `str::to_uppercase` makes of a string.
pub uninterp spec fn upper_of(s: Seq<char>) -> Seq<char>;

/// Relies on `str::to_uppercase`: the result depends on the characters alone.
#[verifier::external_body]
fn uppercase(s: &str) -> (r: String)
    ensures
        r@ == upper_of(s@),
{
    s.to_uppercase()
}

/// The HTTP methods a scan may use.
pub open spec fn known_methods() -> Seq<Seq<char>> {
    seq!["GET"@, "POST"@, "PUT"@, "DELETE"@, "HEAD"@, "OPTIONS"@, "CONNECT"@, "PATCH"@, "TRACE"@]
}

/// Whether `m` is, letter for letter, one of the known methods.
pub fn is_known_method(m: &str) -> (r: bool)
    ensures
        r == known_methods().contains(m@),
{
    let names = vec!["GET", "POST", "PUT", "DELETE", "HEAD", "OPTIONS", "CONNECT", "PATCH", "TRACE"];
    let ghost listed = names@.map_values(|n: &str| n@);
    assert(listed =~= known_methods());
    let mc = chars_of(m);
    let mut i: usize = 0;
    while i < names.len()
        invariant
            listed == names@.map_values(|n: &str| n@),
            listed == known_methods(),
            mc@ == m@,
            i <= names@.len(),
            forall|k: int| 0 <= k < i ==> listed[k] != m@,
        decreases names@.len() - i,
    {
        let nc = chars_of(names[i]);
        if same_chars(&mc, &nc) {
            assert(listed[i as int] == m@);
            return true;
        }
        i += 1;
    }
    assert(!known_methods().contains(m@)) by {
        if known_methods().contains(m@) {
            let k = choose|k: int| 0 <= k < listed.len() && listed[k] == m@;
            assert(listed[k] != m@);
        }
    }
    false
}

/// The method of a scan: the given one in upper case when it is known, and
/// `GET` instead when a content blacklist is set, since bodies are needed.
pub open spec fn method_for(upper: Seq<char>, blacklist: bool) -> Option<Seq<char>> {
    if !known_methods().contains(upper) {
        None
    } else if blacklist {
        Some("GET"@)
    } else {
        Some(upper)
    }
}

/// The method of a scan, from the method in upper case; `None` for an
/// unknown method.
pub fn method_from_upper(upper: &str, blacklist: bool) -> (r: Option<String>)
    ensures
        opt_view(r) == method_for(upper@, blacklist),
{
    if !is_known_method(upper) {
        None
    } else if blacklist {
        Some(String::from_str("GET"))
    } else {
        Some(String::from_str(upper))
    }
}

/// The method of a scan as given on the command line, in any case; `None`
/// for an unknown method.
pub fn normalize_method(method: &str, blacklist: bool) -> (r: Option<String>)
    ensures
        opt_view(r) == method_for(upper_of(method@), blacklist),
{
    let upper = uppercase(method);
    method_from_upper(upper.as_str(), blacklist)
}

/// `s` with every match of `p` replaced by `t`, matches taken left to right
/// without overlap.
pub open spec fn replace_all(s: Seq<char>, p: Seq<char>, t: Seq<char>) -> Seq<char>
    decreases s.len(),
{
    if p.len() == 0 || s.len() < p.len() {
        s
    } else if s.take(p.len() as int) == p {
        t + replace_all(s.skip(p.len() as int), p, t)
    } else {
        seq![s[0]] + replace_all(s.skip(1), p, t)
    }
}

/// Relies on `str::replace` with a string pattern: every non-overlapping
/// match, from the left, is replaced.
#[verifier::external_body]
fn replace_str(s: &str, from: &str, to: &str) -> (r: String)
    requires
        from@.len() > 0,
    ensures
        r@ == replace_all(s@, from@, to@),
{
    s.replace(from, to)
}

/// `s` with each `/` turned into `_`.
pub open spec fn slashes_to_underscores(s: Seq<char>) -> Seq<char> {
    s.map_values(|c: char| if c == '/' { '_' } else { c })
}

/// `s` without the `_` at either end.
pub open spec fn strip_underscores(s: Seq<char>) -> Seq<char>
    decreases s.len(),
{
    if s.len() > 0 && s[0] == '_' {
        strip_underscores(s.drop_first())
    } else if s.len() > 0 && s.last() == '_' {
        strip_underscores(s.drop_last())
    } else {
        s
    }
}

/// The output file named after a target: the scheme removed, `/` turned
/// into `_`, `_` trimmed from the ends, and `.txt` added.
pub open spec fn output_name_of(target: Seq<char>) -> Seq<char> {
    let bare = replace_all(replace_all(target, "https://"@, ""@), "http://"@, ""@);
    strip_underscores(slashes_to_underscores(bare)) + ".txt"@
}

/// The output file named after a target: the scheme removed, `/` turned
/// into `_`, `_` trimmed from the ends, and `.txt` added.
pub fn default_output_name(target: &str) -> (r: String)
    ensures
        r@ == output_name_of(target@),
{
    proof {
        reveal_strlit("https://");
        reveal_strlit("http://");
        reveal_strlit("");
    }
    let a = replace_str(target, "https://", "");
    let b = replace_str(a.as_str(), "http://", "");
    let cs = chars_of(b.as_str());
    let mut mapped: Vec<char> = Vec::new();
    let mut i: usize = 0;
    while i < cs.len()
        invariant
            i <= cs@.len(),
            mapped@ == slashes_to_underscores(cs@.take(i as int)),
        decreases cs@.len() - i,
    {
        let c = cs[i];
        mapped.push(if c == '/' { '_' } else { c });
        i += 1;
        assert(mapped@ =~= slashes_to_underscores(cs@.take(i as int)));
    }
    assert(cs@.take(i as int) =~= cs@);
    let ghost full = mapped@;
    assert(full.subrange(0, full.len() as int) =~= full);
    let mut lo: usize = 0;
    let mut hi: usize = mapped.len();
    while lo < hi && (mapped[lo] == '_' || mapped[hi - 1] == '_')
        invariant
            lo <= hi <= mapped@.len(),
            strip_underscores(mapped@.subrange(lo as int, hi as int)) == strip_underscores(full),
            full == mapped@,
        decreases hi - lo,
    {
        let ghost cur = mapped@.subrange(lo as int, hi as int);
        if mapped[lo] == '_' {
            assert(cur.drop_first() =~= mapped@.subrange(lo + 1, hi as int));
            lo += 1;
        } else {
            assert(cur.drop_last() =~= mapped@.subrange(lo as int, hi - 1));
            hi -= 1;
        }
    }
    let ghost rest = mapped@.subrange(lo as int, hi as int);
    assert(strip_underscores(rest) == rest);
    let mut r = string_of(&mapped, lo, hi);
    r.append(".txt");
    r
}

/// A base URL that ends in `/`.
pub open spec fn slash_terminated(t: Seq<char>) -> Seq<char> {
    if t.len() > 0 && t.last() == '/' {
        t
    } else {
        t.push('/')
    }
}

/// `target`, with a `/` added unless it already ends in one.
pub fn with_trailing_slash(target: &str) -> (r: String)
    ensures
        r@ == slash_terminated(target@),
{
    let n = target.unicode_len();
    let mut r = String::from_str(target);
    if n == 0 || target.get_char(n - 1) != '/' {
        push_char(&mut r, '/');
    }
    r
}

} // verus!
