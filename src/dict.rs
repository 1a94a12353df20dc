//! Dictionary templates: a line is cut into literal text and `%NAME%`
//! placeholders, and each placeholder is replaced by every value of its pool.
use vstd::prelude::*;
use crate::text::{chars_of, starts_with_char, string_of, views};
use itertools::Itertools;
use vstd::arithmetic::div_mod::{
    lemma_div_denominator, lemma_fundamental_div_mod_converse, lemma_mod_breakdown,
};

verus! {

/// Tokenizer state after reading `s`: the finished tokens, the buffer, and
/// whether the buffer holds an open placeholder.
pub open spec fn scan(s: Seq<char>) -> (Seq<Seq<char>>, Seq<char>, bool)
    decreases s.len(),
{
    if s.len() == 0 {
        (Seq::empty(), Seq::empty(), false)
    } else {
        let (toks, buf, inside) = scan(s.drop_last());
        let c = s.last();
        if c == '%' {
            if !inside {
                let flushed = if buf.len() > 0 {
                    toks.push(buf)
                } else {
                    toks
                };
                (flushed, seq!['%'], true)
            } else {
                (toks.push(buf.push('%')), Seq::empty(), false)
            }
        } else {
            (toks, buf.push(c), inside)
        }
    }
}

/// The tokens of a template line: the finished tokens, then what is left in
/// the buffer, if anything.
pub open spec fn line_parts(s: Seq<char>) -> Seq<Seq<char>> {
    let (toks, buf, _inside) = scan(s);
    if buf.len() > 0 {
        toks.push(buf)
    } else {
        toks
    }
}

/// Cuts a template line into literal text and `%...%` tokens; every `%` stays
/// in the token it delimits.
pub fn get_line_part(line: &str) -> (r: Vec<String>)
    ensures
        views(r@) == line_parts(line@),
{
    let cs = chars_of(line);
    let mut result: Vec<String> = Vec::new();
    let mut buf: Vec<char> = Vec::new();
    let mut inside = false;
    let mut i: usize = 0;
    while i < cs.len()
        invariant
            cs@ == line@,
            i <= cs@.len(),
            (views(result@), buf@, inside) == scan(line@.take(i as int)),
        decreases cs@.len() - i,
    {
        let c = cs[i];
        assert(line@.take(i as int + 1).drop_last() =~= line@.take(i as int));
        let ghost old_result = result@;
        if c == '%' {
            if !inside {
                if buf.len() > 0 {
                    let t = string_of(&buf, 0, buf.len());
                    assert(buf@.subrange(0, buf@.len() as int) =~= buf@);
                    result.push(t);
                    assert(views(result@) =~= views(old_result).push(t@));
                }
                buf = Vec::new();
                buf.push(c);
                inside = true;
            } else {
                buf.push(c);
                let t = string_of(&buf, 0, buf.len());
                assert(buf@.subrange(0, buf@.len() as int) =~= buf@);
                result.push(t);
                assert(views(result@) =~= views(old_result).push(t@));
                buf = Vec::new();
                inside = false;
            }
        } else {
            buf.push(c);
        }
        assert(buf@ =~= scan(line@.take(i as int + 1)).1);
        i += 1;
    }
    assert(line@.take(i as int) =~= line@);
    if buf.len() > 0 {
        let ghost old_result = result@;
        let t = string_of(&buf, 0, buf.len());
        assert(buf@.subrange(0, buf@.len() as int) =~= buf@);
        result.push(t);
        assert(views(result@) =~= views(old_result).push(t@));
    }
    result
}


proof fn lemma_scan_keeps_text(s: Seq<char>)
    ensures
        scan(s).0.flatten() + scan(s).1 == s,
    decreases s.len(),
{
    if s.len() > 0 {
        lemma_scan_keeps_text(s.drop_last());
        let (toks, buf, inside) = scan(s.drop_last());
        assert(s.drop_last().push(s.last()) =~= s);
        toks.lemma_flatten_push(buf);
        toks.lemma_flatten_push(buf.push('%'));
        if s.last() == '%' && !inside && buf.len() > 0 {
            assert(toks.push(buf).flatten() + seq!['%'] =~= toks.flatten() + buf + seq!['%']);
        } else if s.last() == '%' && !inside {
            assert(toks.flatten() + seq!['%'] =~= toks.flatten() + buf + seq!['%']);
        } else if s.last() == '%' {
            assert(toks.push(buf.push('%')).flatten() + Seq::<char>::empty() =~= toks.flatten()
                + buf + seq!['%']);
        } else {
            assert(toks.flatten() + buf.push(s.last()) =~= toks.flatten() + buf + seq![s.last()]);
        }
    }
}

/// The tokens of a line, put back together, give the line: nothing is lost
/// or added, the `%` delimiters included.
pub proof fn lemma_line_parts_round_trip(s: Seq<char>)
    ensures
        line_parts(s).flatten() == s,
{
    lemma_scan_keeps_text(s);
    let (toks, buf, _inside) = scan(s);
    toks.lemma_flatten_push(buf);
    if buf.len() == 0 {
        assert(toks.flatten() + buf =~= toks.flatten());
    }
}

proof fn lemma_scan_plain(s: Seq<char>)
    requires
        forall|i: int| 0 <= i < s.len() ==> s[i] != '%',
    ensures
        scan(s) == (Seq::<Seq<char>>::empty(), s, false),
    decreases s.len(),
{
    if s.len() > 0 {
        lemma_scan_plain(s.drop_last());
        assert(s.drop_last().push(s.last()) =~= s);
    }
}

/// A non-empty line without `%` is a single literal token: the line itself.
pub proof fn lemma_plain_line_one_token(s: Seq<char>)
    requires
        s.len() > 0,
        forall|i: int| 0 <= i < s.len() ==> s[i] != '%',
    ensures
        line_parts(s) == seq![s],
{
    lemma_scan_plain(s);
    assert(Seq::<Seq<char>>::empty().push(s) =~= seq![s]);
}

/// The placeholders that a template line may hold.
#[derive(Debug, Clone, Copy, PartialEq, Eq)]
pub enum Placeholder {
    /// `%ALPHA%`: the 52 letters.
    Alpha,
    /// `%NUMBER%`: the 10 digits.
    Number,
    /// `%ALPHANUM%`: letters, then digits.
    AlphaNum,
    /// `%EXT%`: the suffix set.
    Ext,
}

/// Lowercase letters, uppercase letters, digits: the 62 symbols, in order.
pub open spec fn alphanum() -> Seq<char> {
    seq![
        'a', 'b', 'c', 'd', 'e', 'f', 'g', 'h', 'i', 'j', 'k', 'l', 'm',
        'n', 'o', 'p', 'q', 'r', 's', 't', 'u', 'v', 'w', 'x', 'y', 'z',
        'A', 'B', 'C', 'D', 'E', 'F', 'G', 'H', 'I', 'J', 'K', 'L', 'M',
        'N', 'O', 'P', 'Q', 'R', 'S', 'T', 'U', 'V', 'W', 'X', 'Y', 'Z',
        '0', '1', '2', '3', '4', '5', '6', '7', '8', '9',
    ]
}

/// The 62 symbols, in order.
pub fn alphanum_chars() -> (r: Vec<char>)
    ensures
        r@ == alphanum(),
{
    let r = vec![
        'a', 'b', 'c', 'd', 'e', 'f', 'g', 'h', 'i', 'j', 'k', 'l', 'm',
        'n', 'o', 'p', 'q', 'r', 's', 't', 'u', 'v', 'w', 'x', 'y', 'z',
        'A', 'B', 'C', 'D', 'E', 'F', 'G', 'H', 'I', 'J', 'K', 'L', 'M',
        'N', 'O', 'P', 'Q', 'R', 'S', 'T', 'U', 'V', 'W', 'X', 'Y', 'Z',
        '0', '1', '2', '3', '4', '5', '6', '7', '8', '9',
    ];
    assert(r@ =~= alphanum());
    r
}

/// The placeholder that `tok` names, if it names one.
pub open spec fn placeholder_of(tok: Seq<char>) -> Option<Placeholder> {
    if tok == seq!['%', 'A', 'L', 'P', 'H', 'A', '%'] {
        Some(Placeholder::Alpha)
    } else if tok == seq!['%', 'N', 'U', 'M', 'B', 'E', 'R', '%'] {
        Some(Placeholder::Number)
    } else if tok == seq!['%', 'A', 'L', 'P', 'H', 'A', 'N', 'U', 'M', '%'] {
        Some(Placeholder::AlphaNum)
    } else if tok == seq!['%', 'E', 'X', 'T', '%'] {
        Some(Placeholder::Ext)
    } else {
        None
    }
}

/// Each character as a one-character string.
pub open spec fn singles(cs: Seq<char>) -> Seq<Seq<char>> {
    cs.map_values(|c: char| seq![c])
}

/// The values that a placeholder stands for, given the suffix set.
pub open spec fn pool_values(p: Placeholder, sfx: Seq<Seq<char>>) -> Seq<Seq<char>> {
    match p {
        Placeholder::Alpha => singles(alphanum().take(52)),
        Placeholder::Number => singles(alphanum().skip(52)),
        Placeholder::AlphaNum => singles(alphanum()),
        Placeholder::Ext => sfx,
    }
}

/// What one token contributes: a placeholder's pool, or else the token's own
/// text.
pub open spec fn token_values(tok: Seq<char>, sfx: Seq<Seq<char>>) -> Seq<Seq<char>> {
    match placeholder_of(tok) {
        Some(p) => pool_values(p, sfx),
        None => seq![tok],
    }
}

/// Every `a + b` for `a` in `acc` and `b` in `pool`, `acc`'s order first.
pub open spec fn cross(acc: Seq<Seq<char>>, pool: Seq<Seq<char>>) -> Seq<Seq<char>> {
    Seq::new(
        (acc.len() * pool.len()) as nat,
        |k: int| acc[k / pool.len() as int] + pool[k % pool.len() as int],
    )
}

/// One expansion step: the first values seed the set, later ones multiply it.
pub open spec fn expand_step(acc: Seq<Seq<char>>, vals: Seq<Seq<char>>) -> Seq<Seq<char>> {
    if acc.len() == 0 {
        vals
    } else {
        cross(acc, vals)
    }
}

/// The candidates of a token sequence, expanded left to right.
pub open spec fn expand(toks: Seq<Seq<char>>, sfx: Seq<Seq<char>>) -> Seq<Seq<char>>
    decreases toks.len(),
{
    if toks.len() == 0 {
        Seq::empty()
    } else {
        expand_step(expand(toks.drop_last(), sfx), token_values(toks.last(), sfx))
    }
}

/// The product of the numbers of values of the tokens.
pub open spec fn values_product(toks: Seq<Seq<char>>, sfx: Seq<Seq<char>>) -> nat
    decreases toks.len(),
{
    if toks.len() == 0 {
        1
    } else {
        values_product(toks.drop_last(), sfx) * token_values(toks.last(), sfx).len()
    }
}

/// Expansion multiplies left to right: when no token stands for an empty
/// pool, a line yields as many candidates as the product of its tokens'
/// numbers of values.
pub proof fn lemma_expand_len(toks: Seq<Seq<char>>, sfx: Seq<Seq<char>>)
    requires
        toks.len() > 0,
        forall|k: int| 0 <= k < toks.len() ==> token_values(#[trigger] toks[k], sfx).len() > 0,
    ensures
        expand(toks, sfx).len() == values_product(toks, sfx),
        values_product(toks, sfx) > 0,
    decreases toks.len(),
{
    let vals = token_values(toks.last(), sfx);
    assert(vals.len() > 0) by {
        assert(toks.last() == toks[toks.len() - 1]);
    }
    if toks.len() == 1 {
        let prev = toks.drop_last();
        assert(prev.len() == 0);
        assert(values_product(prev, sfx) == 1);
        assert(expand(prev, sfx).len() == 0);
        assert(expand(toks, sfx) == vals);
        assert(values_product(toks, sfx) == 1 * vals.len());
    } else {
        let prev = toks.drop_last();
        assert forall|k: int| 0 <= k < prev.len() implies token_values(#[trigger] prev[k], sfx).len() > 0 by {
            assert(prev[k] == toks[k]);
        }
        lemma_expand_len(prev, sfx);
        let a = values_product(prev, sfx);
        assert(a * vals.len() > 0) by (nonlinear_arith)
            requires
                a > 0,
                vals.len() > 0,
        ;
        assert(values_product(toks, sfx) == a * vals.len());
        assert(expand(toks, sfx) == cross(expand(prev, sfx), vals));
        assert(expand(toks, sfx).len() == a * vals.len());
    }
}

/// With a non-empty suffix set, every token stands for at least one value.
pub proof fn lemma_token_values_nonempty(tok: Seq<char>, sfx: Seq<Seq<char>>)
    requires
        sfx.len() > 0,
    ensures
        token_values(tok, sfx).len() > 0,
{
    assert(alphanum().len() == 62);
}

/// Multiplying sets of strings is associative.
pub proof fn lemma_cross_assoc(x: Seq<Seq<char>>, y: Seq<Seq<char>>, v: Seq<Seq<char>>)
    requires
        y.len() > 0,
        v.len() > 0,
    ensures
        cross(cross(x, y), v) == cross(x, cross(y, v)),
{
    let xl = x.len() as int;
    let yl = y.len() as int;
    let vl = v.len() as int;
    let lhs = cross(cross(x, y), v);
    let rhs = cross(x, cross(y, v));
    assert((xl * yl) * vl == xl * (yl * vl)) by (nonlinear_arith);
    assert(yl * vl == vl * yl) by (nonlinear_arith);
    assert(lhs.len() == rhs.len());
    assert forall|k: int| 0 <= k < lhs.len() implies lhs[k] == rhs[k] by {
        assert(k / vl < xl * yl && 0 <= k / vl) by (nonlinear_arith)
            requires
                0 <= k < (xl * yl) * vl,
                vl > 0,
        ;
        assert(0 <= k % vl < vl) by (nonlinear_arith)
            requires
                vl > 0,
        ;
        assert(k / (yl * vl) < xl && 0 <= k / (yl * vl)) by (nonlinear_arith)
            requires
                0 <= k < xl * (yl * vl),
                yl * vl > 0,
        ;
        lemma_div_denominator(k, vl, yl);
        lemma_mod_breakdown(k, vl, yl);
        let m = k % (vl * yl);
        assert(0 <= (k / vl) % yl < yl) by (nonlinear_arith)
            requires
                yl > 0,
        ;
        lemma_fundamental_div_mod_converse(m, vl, (k / vl) % yl, k % vl);
        assert(0 <= m < yl * vl) by (nonlinear_arith)
            requires
                yl * vl > 0,
                m == k % (vl * yl),
                vl * yl == yl * vl,
        ;
        assert(lhs[k] =~= rhs[k]);
    }
    assert(lhs =~= rhs);
}

/// Expansion works left to right: splitting a line's tokens into two
/// non-empty halves, the candidates are every candidate of the first half
/// followed by every candidate of the second, in that order.
pub proof fn lemma_expand_concat(a: Seq<Seq<char>>, b: Seq<Seq<char>>, sfx: Seq<Seq<char>>)
    requires
        a.len() > 0,
        b.len() > 0,
        sfx.len() > 0,
    ensures
        expand(a + b, sfx) == cross(expand(a, sfx), expand(b, sfx)),
    decreases b.len(),
{
    assert forall|t: Seq<char>| #[trigger] token_values(t, sfx).len() > 0 by {
        lemma_token_values_nonempty(t, sfx);
    }
    let ab = a + b;
    let vals = token_values(b.last(), sfx);
    lemma_expand_len(a, sfx);
    assert(ab.last() == b.last());
    if b.len() == 1 {
        assert(ab.drop_last() =~= a);
        assert(b.drop_last().len() == 0);
        assert(expand(b.drop_last(), sfx).len() == 0);
        assert(expand(b, sfx) == vals);
    } else {
        let b2 = b.drop_last();
        assert(ab.drop_last() =~= a + b2);
        lemma_expand_concat(a, b2, sfx);
        lemma_expand_len(b2, sfx);
        lemma_expand_len(a + b2, sfx);
        assert(expand(ab, sfx) == cross(expand(a + b2, sfx), vals));
        assert(expand(b, sfx) == cross(expand(b2, sfx), vals));
        lemma_cross_assoc(expand(a, sfx), expand(b2, sfx), vals);
    }
}

/// Every intermediate set of the expansion has a length that fits in `usize`.
pub open spec fn expansion_fits(toks: Seq<Seq<char>>, sfx: Seq<Seq<char>>) -> bool {
    forall|k: int|
        0 <= k < toks.len() ==> #[trigger] expand(toks.take(k), sfx).len() * token_values(
            toks[k],
            sfx,
        ).len() <= usize::MAX
}

/// Relies on itertools' `cartesian_product` over two ranges: every pair
/// `(i, j)` with `i < n` and `j < m`, ordered by `i` first.
#[verifier::external_body]
fn index_pairs(n: usize, m: usize) -> (r: Vec<(usize, usize)>)
    requires
        n * m <= usize::MAX,
    ensures
        r@.len() == n * m,
        forall|k: int| 0 <= k < n * m ==> #[trigger] r@[k] == ((k / m as int) as usize, (k % m as int) as usize),
{
    (0..n).cartesian_product(0..m).collect()
}

/// Every `a + b` for `a` in `acc` and `b` in `pool`, `acc`'s order first.
pub fn cross_strings(acc: &Vec<String>, pool: &Vec<String>) -> (r: Vec<String>)
    requires
        acc@.len() * pool@.len() <= usize::MAX,
    ensures
        views(r@) == cross(views(acc@), views(pool@)),
{
    let n = acc.len();
    let m = pool.len();
    let pairs = index_pairs(n, m);
    let mut r: Vec<String> = Vec::new();
    let mut k: usize = 0;
    while k < pairs.len()
        invariant
            n == acc@.len(),
            m == pool@.len(),
            n * m <= usize::MAX,
            pairs@.len() == n * m,
            forall|j: int| 0 <= j < n * m ==> #[trigger] pairs@[j] == ((j / m as int) as usize, (j % m as int) as usize),
            k <= pairs@.len(),
            views(r@) == cross(views(acc@), views(pool@)).take(k as int),
        decreases pairs@.len() - k,
    {
        let (a, b) = pairs[k];
        assert(m > 0 && (k as int) / (m as int) < n as int) by (nonlinear_arith)
            requires
                0 <= k < n * m,
        ;
        assert(0 <= (k as int) / (m as int) && 0 <= (k as int) % (m as int) < m) by (nonlinear_arith)
            requires
                0 <= k, m > 0,
        ;
        let mut s = acc[a].clone();
        s.append(pool[b].as_str());
        let ghost old_r = r@;
        r.push(s);
        assert(views(r@) =~= views(old_r).push(s@));
        assert(views(r@) =~= cross(views(acc@), views(pool@)).take(k as int + 1));
        k += 1;
    }
    assert(cross(views(acc@), views(pool@)).take(k as int) =~= cross(views(acc@), views(pool@)));
    r
}

/// Whether two character sequences are equal.
pub fn same_chars(a: &Vec<char>, b: &Vec<char>) -> (r: bool)
    ensures
        r == (a@ == b@),
{
    if a.len() != b.len() {
        return false;
    }
    let mut i: usize = 0;
    while i < a.len()
        invariant
            a@.len() == b@.len(),
            i <= a@.len(),
            a@.take(i as int) == b@.take(i as int),
        decreases a@.len() - i,
    {
        if a[i] != b[i] {
            assert(a@[i as int] != b@[i as int]);
            return false;
        }
        assert(a@.take(i as int + 1) =~= a@.take(i as int).push(a@[i as int]));
        assert(b@.take(i as int + 1) =~= b@.take(i as int).push(b@[i as int]));
        i += 1;
    }
    assert(a@.take(i as int) =~= a@);
    assert(b@.take(i as int) =~= b@);
    true
}

/// The placeholder that a token names, if it names one.
pub fn placeholder_of_token(tok: &str) -> (r: Option<Placeholder>)
    ensures
        r == placeholder_of(tok@),
{
    let cs = chars_of(tok);
    let alpha = vec!['%', 'A', 'L', 'P', 'H', 'A', '%'];
    let number = vec!['%', 'N', 'U', 'M', 'B', 'E', 'R', '%'];
    let alnum = vec!['%', 'A', 'L', 'P', 'H', 'A', 'N', 'U', 'M', '%'];
    let ext = vec!['%', 'E', 'X', 'T', '%'];
    assert(alpha@ =~= seq!['%', 'A', 'L', 'P', 'H', 'A', '%']);
    assert(number@ =~= seq!['%', 'N', 'U', 'M', 'B', 'E', 'R', '%']);
    assert(alnum@ =~= seq!['%', 'A', 'L', 'P', 'H', 'A', 'N', 'U', 'M', '%']);
    assert(ext@ =~= seq!['%', 'E', 'X', 'T', '%']);
    if same_chars(&cs, &alpha) {
        Some(Placeholder::Alpha)
    } else if same_chars(&cs, &number) {
        Some(Placeholder::Number)
    } else if same_chars(&cs, &alnum) {
        Some(Placeholder::AlphaNum)
    } else if same_chars(&cs, &ext) {
        Some(Placeholder::Ext)
    } else {
        None
    }
}

/// `cs[lo..hi]`, each character as a one-character string.
fn single_strings(cs: &Vec<char>, lo: usize, hi: usize) -> (r: Vec<String>)
    requires
        lo <= hi <= cs@.len(),
    ensures
        views(r@) == singles(cs@.subrange(lo as int, hi as int)),
{
    let mut r: Vec<String> = Vec::new();
    let mut i: usize = lo;
    while i < hi
        invariant
            lo <= i <= hi <= cs@.len(),
            views(r@) == singles(cs@.subrange(lo as int, i as int)),
        decreases hi - i,
    {
        let s = string_of(cs, i, i + 1);
        assert(s@ =~= seq![cs@[i as int]]);
        let ghost old_r = r@;
        r.push(s);
        assert(views(r@) =~= views(old_r).push(s@));
        i += 1;
        assert(views(r@) =~= singles(cs@.subrange(lo as int, i as int)));
    }
    r
}

/// Copies of the strings of `v`.
fn copy_strings(v: &Vec<String>) -> (r: Vec<String>)
    ensures
        views(r@) == views(v@),
{
    let mut r: Vec<String> = Vec::new();
    let mut i: usize = 0;
    while i < v.len()
        invariant
            i <= v@.len(),
            views(r@) == views(v@).take(i as int),
        decreases v@.len() - i,
    {
        let ghost old_r = r@;
        r.push(v[i].clone());
        assert(views(r@) =~= views(old_r).push(v@[i as int]@));
        i += 1;
        assert(views(r@) =~= views(v@).take(i as int));
    }
    assert(views(v@).take(i as int) =~= views(v@));
    r
}

/// The values that a placeholder stands for, given the suffix set.
pub fn pool_strings(p: Placeholder, suffixes: &Vec<String>) -> (r: Vec<String>)
    ensures
        views(r@) == pool_values(p, views(suffixes@)),
{
    let cs = alphanum_chars();
    match p {
        Placeholder::Alpha => {
            assert(cs@.subrange(0, 52) =~= alphanum().take(52));
            single_strings(&cs, 0, 52)
        },
        Placeholder::Number => {
            assert(cs@.subrange(52, 62) =~= alphanum().skip(52));
            single_strings(&cs, 52, 62)
        },
        Placeholder::AlphaNum => {
            assert(cs@.subrange(0, 62) =~= alphanum());
            single_strings(&cs, 0, 62)
        },
        Placeholder::Ext => copy_strings(suffixes),
    }
}

/// What one token contributes: a placeholder's pool, or else the token's own
/// text.
pub fn token_strings(tok: &String, suffixes: &Vec<String>) -> (r: Vec<String>)
    ensures
        views(r@) == token_values(tok@, views(suffixes@)),
{
    match placeholder_of_token(tok.as_str()) {
        Some(p) => pool_strings(p, suffixes),
        None => {
            let r = vec![tok.clone()];
            assert(views(r@) =~= seq![tok@]);
            r
        },
    }
}

/// The candidates of a token sequence, expanded left to right.
pub fn expand_tokens(toks: &Vec<String>, suffixes: &Vec<String>) -> (r: Vec<String>)
    requires
        expansion_fits(views(toks@), views(suffixes@)),
    ensures
        views(r@) == expand(views(toks@), views(suffixes@)),
{
    let ghost sfx = views(suffixes@);
    let ghost ts = views(toks@);
    let mut acc: Vec<String> = Vec::new();
    let mut i: usize = 0;
    assert(ts.take(0) =~= Seq::<Seq<char>>::empty());
    while i < toks.len()
        invariant
            sfx == views(suffixes@),
            ts == views(toks@),
            expansion_fits(ts, sfx),
            i <= toks@.len(),
            views(acc@) == expand(ts.take(i as int), sfx),
        decreases toks@.len() - i,
    {
        let vals = token_strings(&toks[i], suffixes);
        assert(ts.take(i as int + 1).drop_last() =~= ts.take(i as int));
        assert(ts[i as int] == toks@[i as int]@);
        assert(expand(ts.take(i as int), sfx).len() * token_values(ts[i as int], sfx).len()
            <= usize::MAX);
        if acc.len() == 0 {
            acc = vals;
        } else {
            acc = cross_strings(&acc, &vals);
        }
        i += 1;
    }
    assert(ts.take(i as int) =~= ts);
    acc
}

/// A template line without one leading `/`.
pub open spec fn strip_slash(l: Seq<char>) -> Seq<char> {
    if l.len() > 0 && l[0] == '/' {
        l.drop_first()
    } else {
        l
    }
}

/// The candidates of one template line.
pub open spec fn line_candidates(line: Seq<char>, sfx: Seq<Seq<char>>) -> Seq<Seq<char>> {
    expand(line_parts(strip_slash(line)), sfx)
}

/// The tokens of a template line after one leading `/` is dropped.
pub fn line_tokens(line: &str) -> (r: Vec<String>)
    ensures
        views(r@) == line_parts(strip_slash(line@)),
{
    let cs = chars_of(line);
    let body = if starts_with_char(line, '/') {
        string_of(&cs, 1, cs.len())
    } else {
        string_of(&cs, 0, cs.len())
    };
    assert(body@ =~= strip_slash(line@));
    let toks = get_line_part(body.as_str());
    toks
}

/// The candidates of one template line: one leading `/` is dropped, then the
/// line's tokens are expanded left to right.
pub fn expand_line(line: &str, suffixes: &Vec<String>) -> (r: Vec<String>)
    requires
        expansion_fits(line_parts(strip_slash(line@)), views(suffixes@)),
    ensures
        views(r@) == line_candidates(line@, views(suffixes@)),
{
    let toks = line_tokens(line);
    expand_tokens(&toks, suffixes)
}

/// Whether every intermediate set of the expansion of `toks` fits in memory
/// indices.
pub fn expansion_fits_check(toks: &Vec<String>, suffixes: &Vec<String>) -> (r: bool)
    ensures
        r == expansion_fits(views(toks@), views(suffixes@)),
{
    let ghost sfx = views(suffixes@);
    let ghost ts = views(toks@);
    let mut acc_len: usize = 0;
    let mut i: usize = 0;
    assert(ts.take(0) =~= Seq::<Seq<char>>::empty());
    while i < toks.len()
        invariant
            sfx == views(suffixes@),
            ts == views(toks@),
            i <= toks@.len(),
            acc_len == expand(ts.take(i as int), sfx).len(),
            forall|k: int|
                0 <= k < i ==> #[trigger] expand(ts.take(k), sfx).len() * token_values(ts[k], sfx).len()
                    <= usize::MAX,
        decreases toks@.len() - i,
    {
        let vals = token_strings(&toks[i], suffixes);
        assert(ts.take(i as int + 1).drop_last() =~= ts.take(i as int));
        assert(ts[i as int] == toks@[i as int]@);
        match acc_len.checked_mul(vals.len()) {
            None => {
                assert(!expansion_fits(ts, sfx)) by {
                    assert(expand(ts.take(i as int), sfx).len() * token_values(ts[i as int], sfx).len()
                        > usize::MAX);
                }
                return false;
            },
            Some(product) => {
                if acc_len == 0 {
                    acc_len = vals.len();
                } else {
                    acc_len = product;
                }
            },
        }
        i += 1;
    }
    assert(ts.take(i as int) =~= ts);
    assert forall|k: int| 0 <= k < ts.len() implies #[trigger] expand(ts.take(k), sfx).len()
        * token_values(ts[k], sfx).len() <= usize::MAX by {}
    true
}

/// The candidates of one template line, or `None` when the expansion would
/// be too large to index.
pub fn expand_line_checked(line: &str, suffixes: &Vec<String>) -> (r: Option<Vec<String>>)
    ensures
        r is Some <==> expansion_fits(line_parts(strip_slash(line@)), views(suffixes@)),
        r matches Some(v) ==> views(v@) == line_candidates(line@, views(suffixes@)),
{
    let toks = line_tokens(line);
    if expansion_fits_check(&toks, suffixes) {
        Some(expand_tokens(&toks, suffixes))
    } else {
        None
    }
}

} // verus!
