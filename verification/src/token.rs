//! Tokenizer: turns raw text into a normalized sequence of word tokens.
//!
//! Text is split on whitespace and on the literal `.`; each piece is
//! lowercased (ASCII), has every `''` pair collapsed to `"`, and is stripped
//! of leading and trailing non-alphabetic characters; pieces of length one or
//! less are dropped, except the literal "i".

use vstd::prelude::*;
use vstd::string::StringExecFns;

verus! {

/// Whether a character counts as alphabetic; stands for the result of
/// `char::is_alphabetic`, which depends on the character alone.
pub uninterp spec fn char_alphabetic(c: char) -> bool;

/// The Unicode White_Space characters, exactly the set recognized by
/// `char::is_whitespace`.
pub open spec fn char_whitespace(c: char) -> bool {
    let u = c as u32;
    u == 0x20 || (0x9 <= u && u <= 0xD) || u == 0x85 || u == 0xA0 || u == 0x1680 || (0x2000 <= u
        && u <= 0x200A) || u == 0x2028 || u == 0x2029 || u == 0x202F || u == 0x205F || u == 0x3000
}

/// A character on which the tokenizer splits text into pieces.
pub open spec fn sep_char(c: char) -> bool {
    char_whitespace(c) || c == '.'
}

/// ASCII lowercasing of one character: 'A'..='Z' map down by 0x20, every
/// other character is unchanged.
pub open spec fn lower_char(c: char) -> char {
    if 0x41 <= c as u32 && c as u32 <= 0x5a {
        (c as u32 + 0x20) as char
    } else {
        c
    }
}

/// ASCII lowercasing of a character sequence.
pub open spec fn lower_seq(s: Seq<char>) -> Seq<char> {
    s.map_values(|c: char| lower_char(c))
}

/// Collapse every `''` pair into a single `"`, scanning left to right.
pub open spec fn replace_qq(s: Seq<char>) -> Seq<char>
    decreases s.len(),
{
    if s.len() >= 2 && s[0] == '\'' && s[1] == '\'' {
        seq!['"'] + replace_qq(s.skip(2))
    } else if s.len() >= 1 {
        seq![s[0]] + replace_qq(s.skip(1))
    } else {
        Seq::empty()
    }
}

/// Drop leading non-alphabetic characters.
pub open spec fn strip_lead(s: Seq<char>) -> Seq<char>
    decreases s.len(),
{
    if s.len() > 0 && !char_alphabetic(s[0]) {
        strip_lead(s.skip(1))
    } else {
        s
    }
}

/// Drop trailing non-alphabetic characters.
pub open spec fn strip_trail(s: Seq<char>) -> Seq<char>
    decreases s.len(),
{
    if s.len() > 0 && !char_alphabetic(s.last()) {
        strip_trail(s.drop_last())
    } else {
        s
    }
}

/// Normalization of one piece of text: lowercase, collapse `''`, and strip
/// non-alphabetic characters from both ends.
pub open spec fn clean(s: Seq<char>) -> Seq<char> {
    strip_trail(strip_lead(replace_qq(lower_seq(s))))
}

/// Whether a cleaned piece is kept as a token: more than one character, or
/// exactly the word "i".
pub open spec fn keep_token(t: Seq<char>) -> bool {
    t.len() > 1 || (t.len() == 1 && t[0] == 'i')
}

/// Split a text on separator characters. Always yields at least one piece;
/// no piece contains a separator character.
pub open spec fn split_text(s: Seq<char>) -> Seq<Seq<char>>
    decreases s.len(),
{
    if s.len() == 0 {
        seq![Seq::empty()]
    } else {
        let rest = split_text(s.drop_last());
        if sep_char(s.last()) {
            rest.push(Seq::empty())
        } else {
            rest.update(rest.len() - 1, rest.last().push(s.last()))
        }
    }
}

/// Normalization applied to every piece.
pub open spec fn clean_all(ps: Seq<Seq<char>>) -> Seq<Seq<char>> {
    ps.map_values(|p: Seq<char>| clean(p))
}

/// Keep only the pieces that count as tokens.
pub open spec fn keep_all(ts: Seq<Seq<char>>) -> Seq<Seq<char>> {
    ts.filter(|t: Seq<char>| keep_token(t))
}

/// The token sequence of a text: split, normalize, filter.
pub open spec fn tokenize(s: Seq<char>) -> Seq<Seq<char>> {
    keep_all(clean_all(split_text(s)))
}

/// The character sequences of a vector of strings.
pub open spec fn seq_views(v: Seq<String>) -> Seq<Seq<char>> {
    v.map_values(|s: String| s@)
}

/// No separator character occurs in the sequence.
pub open spec fn sep_free(s: Seq<char>) -> bool {
    forall|i: int| 0 <= i < s.len() ==> !sep_char(#[trigger] s[i])
}

/// Every character is fixed under ASCII lowercasing.
pub open spec fn all_lower(s: Seq<char>) -> bool {
    forall|i: int| 0 <= i < s.len() ==> lower_char(#[trigger] s[i]) == s[i]
}

/// No two adjacent single quotes occur in the sequence.
pub open spec fn no_qq(s: Seq<char>) -> bool {
    forall|i: int| 1 <= i < s.len() ==> !(s[i - 1] == '\'' && #[trigger] s[i] == '\'')
}

/// Lowercasing one character is idempotent and never produces a separator
/// from a non-separator.
proof fn lemma_lower_char(c: char)
    ensures
        lower_char(lower_char(c)) == lower_char(c),
        !sep_char(c) ==> !sep_char(lower_char(c)),
{
    if 0x41 <= c as u32 && c as u32 <= 0x5a {
        assert(lower_char(c) as u32 == c as u32 + 0x20) by {
            assert(0x61 <= c as u32 + 0x20 <= 0x7a);
        }
    }
}

/// The collapse of `''` pairs leaves no adjacent quotes, and introduces no
/// character other than `"`.
proof fn lemma_replace_props(s: Seq<char>)
    ensures
        no_qq(replace_qq(s)),
        forall|i: int|
            0 <= i < replace_qq(s).len() ==> (#[trigger] replace_qq(s)[i] == '"' || s.contains(
                replace_qq(s)[i],
            )),
    decreases s.len(),
{
    let r = replace_qq(s);
    if s.len() >= 2 && s[0] == '\'' && s[1] == '\'' {
        lemma_replace_props(s.skip(2));
        let rest = replace_qq(s.skip(2));
        assert(r == seq!['"'] + rest);
        assert forall|i: int| 1 <= i < r.len() implies !(r[i - 1] == '\'' && #[trigger] r[i]
            == '\'') by {
            if i >= 2 {
                assert(r[i] == rest[i - 1] && r[i - 1] == rest[i - 2]);
            } else {
                assert(r[0] == '"');
            }
        }
        assert forall|i: int| 0 <= i < r.len() implies (#[trigger] r[i] == '"' || s.contains(
            r[i],
        )) by {
            if i >= 1 {
                assert(r[i] == rest[i - 1]);
                if rest[i - 1] != '"' {
                    let j = s.skip(2).lemma_contains_to_index(rest[i - 1]);
                    assert(s[j + 2] == r[i]);
                }
            }
        }
    } else if s.len() >= 1 {
        lemma_replace_props(s.skip(1));
        let rest = replace_qq(s.skip(1));
        assert(r == seq![s[0]] + rest);
        assert forall|i: int| 1 <= i < r.len() implies !(r[i - 1] == '\'' && #[trigger] r[i]
            == '\'') by {
            if i >= 2 {
                assert(r[i] == rest[i - 1] && r[i - 1] == rest[i - 2]);
            } else {
                assert(r[0] == s[0] && r[1] == rest[0]);
                if s[0] == '\'' && r[1] == '\'' {
                    // The first branch was not taken, so s[1] != '\''; yet
                    // rest[0] is either s[1] or a '"'.
                    let rs = s.skip(1);
                    assert(rs.len() >= 1) by {
                        if rs.len() == 0 {
                            assert(rest =~= Seq::<char>::empty());
                        }
                    }
                    assert(s.len() >= 2 && rs[0] == s[1]);
                    if rs.len() >= 2 && rs[0] == '\'' && rs[1] == '\'' {
                        assert(s[1] == '\'');
                    } else {
                        assert(rest[0] == rs[0]);
                        assert(s[1] == '\'');
                    }
                }
            }
        }
        assert forall|i: int| 0 <= i < r.len() implies (#[trigger] r[i] == '"' || s.contains(
            r[i],
        )) by {
            if i == 0 {
                assert(r[0] == s[0]);
            } else {
                assert(r[i] == rest[i - 1]);
                if rest[i - 1] != '"' {
                    let j = s.skip(1).lemma_contains_to_index(rest[i - 1]);
                    assert(s[j + 1] == r[i]);
                }
            }
        }
    }
}

/// A sequence without adjacent quotes is fixed by the collapse of `''` pairs.
proof fn lemma_replace_fixed(s: Seq<char>)
    requires
        no_qq(s),
    ensures
        replace_qq(s) == s,
    decreases s.len(),
{
    if s.len() >= 2 && s[0] == '\'' && s[1] == '\'' {
        assert(false);
    } else if s.len() >= 1 {
        assert(no_qq(s.skip(1))) by {
            assert(forall|i: int|
                0 <= i && i + 1 < s.skip(1).len() ==> s.skip(1)[i] == s[i + 1] && #[trigger] s.skip(
                    1,
                )[i + 1] == s[i + 2]);
        }
        lemma_replace_fixed(s.skip(1));
        assert(replace_qq(s) =~= s);
    }
}

/// Stripping the leading non-alphabetic characters preserves character-wise
/// properties, and leaves a sequence that is empty or starts alphabetic.
proof fn lemma_strip_lead_props(s: Seq<char>)
    ensures
        no_qq(s) ==> no_qq(strip_lead(s)),
        all_lower(s) ==> all_lower(strip_lead(s)),
        sep_free(s) ==> sep_free(strip_lead(s)),
        strip_lead(s).len() > 0 ==> char_alphabetic(strip_lead(s)[0]),
        strip_lead(strip_lead(s)) == strip_lead(s),
    decreases s.len(),
{
    if s.len() > 0 && !char_alphabetic(s[0]) {
        assert(forall|i: int| 0 <= i < s.skip(1).len() ==> #[trigger] s.skip(1)[i] == s[i + 1]);
        lemma_strip_lead_props(s.skip(1));
    }
}

/// Stripping the trailing non-alphabetic characters preserves character-wise
/// properties, keeps the first character, and leaves a sequence that is empty
/// or ends alphabetic.
proof fn lemma_strip_trail_props(s: Seq<char>)
    ensures
        no_qq(s) ==> no_qq(strip_trail(s)),
        all_lower(s) ==> all_lower(strip_trail(s)),
        sep_free(s) ==> sep_free(strip_trail(s)),
        strip_trail(s).len() > 0 ==> char_alphabetic(strip_trail(s).last()),
        strip_trail(s).len() > 0 ==> strip_trail(s)[0] == s[0],
        strip_trail(strip_trail(s)) == strip_trail(s),
        char_alphabetic(s[0]) || s.len() == 0 || strip_trail(s).len() == 0 ==> strip_lead(
            strip_trail(s),
        ) == strip_trail(s),
    decreases s.len(),
{
    if s.len() > 0 && !char_alphabetic(s.last()) {
        assert(forall|i: int|
            0 <= i < s.drop_last().len() ==> #[trigger] s.drop_last()[i] == s[i]);
        lemma_strip_trail_props(s.drop_last());
    }
}

/// The text of a token sequence: the tokens joined by single spaces.
pub open spec fn join_tokens(ts: Seq<Seq<char>>) -> Seq<char>
    decreases ts.len(),
{
    if ts.len() == 0 {
        Seq::empty()
    } else if ts.len() == 1 {
        ts[0]
    } else {
        join_tokens(ts.drop_last()) + seq![' '] + ts.last()
    }
}

/// Normalizing a piece twice gives the same token as normalizing it once,
/// and a separator-free piece normalizes to a separator-free token.
proof fn lemma_clean_props(p: Seq<char>)
    ensures
        clean(clean(p)) == clean(p),
        sep_free(p) ==> sep_free(clean(p)),
{
    let low = lower_seq(p);
    let rep = replace_qq(low);
    let led = strip_lead(rep);
    let t = clean(p);
    assert(all_lower(low)) by {
        assert(forall|i: int| 0 <= i < low.len() ==> #[trigger] low[i] == lower_char(p[i]));
        assert forall|i: int| 0 <= i < low.len() implies lower_char(#[trigger] low[i]) == low[i] by {
            lemma_lower_char(p[i]);
        }
    }
    if sep_free(p) {
        assert forall|i: int| 0 <= i < low.len() implies !sep_char(#[trigger] low[i]) by {
            lemma_lower_char(p[i]);
        }
    }
    lemma_replace_props(low);
    assert(all_lower(rep)) by {
        assert forall|i: int| 0 <= i < rep.len() implies lower_char(#[trigger] rep[i]) == rep[i] by {
            if rep[i] == '"' {
            } else {
                let j = low.lemma_contains_to_index(rep[i]);
            }
        }
    }
    if sep_free(low) {
        assert forall|i: int| 0 <= i < rep.len() implies !sep_char(#[trigger] rep[i]) by {
            if rep[i] == '"' {
            } else {
                let j = low.lemma_contains_to_index(rep[i]);
            }
        }
    }
    lemma_strip_lead_props(rep);
    lemma_strip_trail_props(led);
    // t inherits every character-wise property.
    assert(no_qq(t) && all_lower(t));
    if sep_free(p) {
        assert(sep_free(t));
    }
    // Re-cleaning t changes nothing.
    assert(lower_seq(t) =~= t);
    lemma_replace_fixed(t);
    if t.len() > 0 {
        assert(t[0] == led[0]);
        assert(char_alphabetic(t[0]));
        assert(strip_lead(t) == t);
        lemma_strip_trail_props(t);
        assert(strip_trail(t) == t) by {
            assert(char_alphabetic(t.last()));
        }
    } else {
        assert(t =~= Seq::<char>::empty());
        assert(clean(clean(p)) =~= Seq::<char>::empty());
    }
}

/// Every piece of a split is separator-free, and a split is never empty.
proof fn lemma_split_pieces(s: Seq<char>)
    ensures
        split_text(s).len() >= 1,
        forall|j: int|
            0 <= j < split_text(s).len() ==> sep_free(#[trigger] split_text(s)[j]),
    decreases s.len(),
{
    if s.len() > 0 {
        lemma_split_pieces(s.drop_last());
        let rest = split_text(s.drop_last());
        if !sep_char(s.last()) {
            let r = split_text(s);
            assert forall|j: int| 0 <= j < r.len() implies sep_free(#[trigger] r[j]) by {
                if j == r.len() - 1 {
                    let q = rest.last().push(s.last());
                    assert(forall|i: int|
                        0 <= i < q.len() - 1 ==> #[trigger] q[i] == rest.last()[i]);
                    assert(sep_free(rest.last()));
                } else {
                    assert(r[j] == rest[j]);
                }
            }
        }
    }
}

/// Splitting a separator-free text yields that text as the only piece.
proof fn lemma_split_sepfree(p: Seq<char>)
    requires
        sep_free(p),
    ensures
        split_text(p) == seq![p],
    decreases p.len(),
{
    if p.len() == 0 {
        assert(p =~= Seq::<char>::empty());
        assert(split_text(p) =~~= seq![p]);
    } else {
        assert(forall|i: int|
            0 <= i < p.drop_last().len() ==> #[trigger] p.drop_last()[i] == p[i]);
        lemma_split_sepfree(p.drop_last());
        assert(!sep_char(p.last()));
        assert(split_text(p) =~= seq![p.drop_last().push(p.last())]);
        assert(p.drop_last().push(p.last()) =~= p);
    }
}

/// Appending a separator-free text extends the last piece of the split.
proof fn lemma_split_add_sepfree(x: Seq<char>, p: Seq<char>)
    requires
        sep_free(p),
    ensures
        split_text(x + p) == split_text(x).update(
            split_text(x).len() - 1,
            split_text(x).last() + p,
        ),
    decreases p.len(),
{
    lemma_split_pieces(x);
    let sx = split_text(x);
    if p.len() == 0 {
        assert(x + p =~= x);
        assert(sx.update(sx.len() - 1, sx.last() + p) =~= sx);
    } else {
        assert(forall|i: int|
            0 <= i < p.drop_last().len() ==> #[trigger] p.drop_last()[i] == p[i]);
        lemma_split_add_sepfree(x, p.drop_last());
        let y = x + p;
        assert(y.drop_last() =~= x + p.drop_last());
        assert(y.last() == p.last());
        assert(!sep_char(p.last()));
        let mid = split_text(x + p.drop_last());
        assert(mid.len() == sx.len());
        assert(mid.last() == sx.last() + p.drop_last());
        assert(split_text(y) == mid.update(mid.len() - 1, mid.last().push(p.last())));
        assert(mid.last().push(p.last()) =~= sx.last() + p);
        assert(mid.update(mid.len() - 1, sx.last() + p) =~= sx.update(
            sx.len() - 1,
            sx.last() + p,
        ));
    }
}

/// Splitting the spaced join of nonempty separator-free tokens recovers
/// exactly those tokens.
proof fn lemma_split_join(ts: Seq<Seq<char>>)
    requires
        ts.len() >= 1,
        forall|j: int| 0 <= j < ts.len() ==> (#[trigger] ts[j]).len() > 0 && sep_free(ts[j]),
    ensures
        split_text(join_tokens(ts)) == ts,
    decreases ts.len(),
{
    if ts.len() == 1 {
        lemma_split_sepfree(ts[0]);
        assert(seq![ts[0]] =~= ts);
    } else {
        assert(forall|j: int|
            0 <= j < ts.drop_last().len() ==> #[trigger] ts.drop_last()[j] == ts[j]);
        lemma_split_join(ts.drop_last());
        let a = join_tokens(ts.drop_last());
        assert(join_tokens(ts) == a + seq![' '] + ts.last());
        assert((a + seq![' ']).drop_last() =~= a);
        assert((a + seq![' ']).last() == ' ');
        assert(sep_char(' '));
        assert(split_text(a + seq![' ']) == split_text(a).push(Seq::empty()));
        lemma_split_add_sepfree(a + seq![' '], ts.last());
        let sb = split_text(a + seq![' ']);
        assert(split_text(a + seq![' '] + ts.last()) == sb.update(
            sb.len() - 1,
            sb.last() + ts.last(),
        ));
        assert(sb.last() + ts.last() =~= ts.last());
        assert(sb.update(sb.len() - 1, ts.last()) =~= ts.drop_last().push(ts.last()));
        assert(ts.drop_last().push(ts.last()) =~= ts);
    }
}

/// Filtering keeps everything when every element passes.
proof fn lemma_filter_all_pass(ts: Seq<Seq<char>>)
    requires
        forall|j: int| 0 <= j < ts.len() ==> keep_token(#[trigger] ts[j]),
    ensures
        keep_all(ts) == ts,
    decreases ts.len(),
{
    reveal_with_fuel(Seq::filter, 2);
    if ts.len() > 0 {
        assert(forall|j: int|
            0 <= j < ts.drop_last().len() ==> #[trigger] ts.drop_last()[j] == ts[j]);
        lemma_filter_all_pass(ts.drop_last());
        assert(keep_all(ts) =~= ts.drop_last().push(ts.last()));
        assert(ts.drop_last().push(ts.last()) =~= ts);
    }
}

/// The empty text has no tokens.
proof fn lemma_tokenize_empty()
    ensures
        tokenize(Seq::empty()) == Seq::<Seq<char>>::empty(),
{
    reveal_with_fuel(Seq::filter, 2);
    let e = Seq::<char>::empty();
    assert(split_text(e) == seq![e]);
    assert(lower_seq(e) =~= e);
    assert(replace_qq(e) =~= e);
    assert(clean(e) =~= e);
    assert(clean_all(seq![e]) =~= seq![clean(e)]);
    assert(!keep_token(e));
    assert(seq![clean(e)].drop_last() =~= Seq::<Seq<char>>::empty());
    assert(keep_all(seq![clean(e)]) =~= Seq::<Seq<char>>::empty());
}

/// Tokenizing is idempotent: rendering the tokens of a text back to text and
/// tokenizing again yields the same tokens.
pub proof fn lemma_tokenize_idempotent(text: Seq<char>)
    ensures
        tokenize(join_tokens(tokenize(text))) == tokenize(text),
{
    let ps = split_text(text);
    let cl = clean_all(ps);
    let ts = tokenize(text);
    lemma_split_pieces(text);
    // Every token is a normalized, separator-free, kept piece.
    assert forall|j: int|
        0 <= j < ts.len() implies (#[trigger] ts[j]).len() > 0 && sep_free(ts[j]) && clean(ts[j])
        == ts[j] && keep_token(ts[j]) by {
        cl.lemma_filter_pred(|t: Seq<char>| keep_token(t), j);
        assert(keep_token(ts[j]));
        assert(cl.filter(|t: Seq<char>| keep_token(t)).contains(ts[j]));
        cl.lemma_filter_contains_rev(|t: Seq<char>| keep_token(t), ts[j]);
        let k = cl.lemma_contains_to_index(ts[j]);
        assert(cl[k] == clean(ps[k]));
        lemma_clean_props(ps[k]);
    }
    if ts.len() == 0 {
        assert(join_tokens(ts) =~= Seq::<char>::empty());
        lemma_tokenize_empty();
    } else {
        lemma_split_join(ts);
        assert(clean_all(ts) =~= ts);
        lemma_filter_all_pass(ts);
    }
}

/// Relies on char::is_alphabetic: the result depends on the character alone.
#[verifier::external_body]
pub(crate) fn is_alpha_char(c: char) -> (r: bool)
    ensures
        r == char_alphabetic(c),
{
    c.is_alphabetic()
}

/// Whether a character is Unicode whitespace.
pub(crate) fn is_space_char(c: char) -> (r: bool)
    ensures
        r == char_whitespace(c),
{
    let u = c as u32;
    u == 0x20 || (0x9 <= u && u <= 0xD) || u == 0x85 || u == 0xA0 || u == 0x1680 || (0x2000 <= u
        && u <= 0x200A) || u == 0x2028 || u == 0x2029 || u == 0x202F || u == 0x205F || u == 0x3000
}

/// Relies on char::to_ascii_lowercase: 'A'..='Z' map to 'a'..='z', every
/// other character is returned unchanged.
#[verifier::external_body]
pub(crate) fn to_lower_char(c: char) -> (r: char)
    ensures
        r == lower_char(c),
{
    c.to_ascii_lowercase()
}

/// Relies on str::chars: yields the characters of the string, in order.
#[verifier::external_body]
pub(crate) fn chars_vec(s: &str) -> (r: Vec<char>)
    ensures
        r@ == s@,
{
    s.chars().collect()
}

/// Relies on String::from_iter over characters: builds the string holding
/// exactly these characters, in order.
#[verifier::external_body]
pub(crate) fn string_from_chars(cs: &Vec<char>) -> (r: String)
    ensures
        r@ == cs@,
{
    cs.iter().collect()
}

/// Normalize the piece `cs[from..to]`.
#[verifier::loop_isolation(false)]
#[verifier::rlimit(30)]
fn clean_range(cs: &Vec<char>, from: usize, to: usize) -> (r: Vec<char>)
    requires
        from <= to <= cs@.len(),
    ensures
        r@ == clean(cs@.subrange(from as int, to as int)),
{
    let ghost piece: Seq<char> = cs@.subrange(from as int, to as int);
    // Lowercase.
    let mut low: Vec<char> = Vec::new();
    let mut j: usize = from;
    while j < to
        invariant
            from <= j <= to,
            low@ == lower_seq(cs@.subrange(from as int, j as int)),
        decreases to - j,
    {
        low.push(to_lower_char(cs[j]));
        proof {
            assert(cs@.subrange(from as int, j + 1 as int) =~= cs@.subrange(
                from as int,
                j as int,
            ).push(cs@[j as int]));
            assert(lower_seq(cs@.subrange(from as int, j + 1 as int)) =~= lower_seq(
                cs@.subrange(from as int, j as int),
            ).push(lower_char(cs@[j as int])));
        }
        j += 1;
    }
    assert(low@ == lower_seq(piece));
    // Collapse '' pairs.
    let mut rep: Vec<char> = Vec::new();
    let mut i: usize = 0;
    proof {
        assert(low@.skip(0) =~= low@);
        assert(Seq::<char>::empty() + replace_qq(low@) =~= replace_qq(low@));
    }
    while i < low.len()
        invariant
            i <= low@.len(),
            rep@ + replace_qq(low@.skip(i as int)) == replace_qq(low@),
        decreases low@.len() - i,
    {
        let ghost rest = low@.skip(i as int);
        if i + 1 < low.len() && low[i] == '\'' && low[i + 1] == '\'' {
            rep.push('"');
            proof {
                assert(rest.len() >= 2 && rest[0] == '\'' && rest[1] == '\'');
                assert(rest.skip(2) =~= low@.skip(i + 2 as int));
                assert(rep@ + replace_qq(low@.skip(i + 2 as int)) =~= replace_qq(low@));
            }
            i += 2;
        } else {
            rep.push(low[i]);
            proof {
                assert(rest.len() >= 1);
                if rest.len() >= 2 && rest[0] == '\'' && rest[1] == '\'' {
                    assert(low@[i as int] == '\'' && low@[i + 1 as int] == '\'');
                    assert(false);
                }
                assert(rest.skip(1) =~= low@.skip(i + 1 as int));
                assert(rep@ + replace_qq(low@.skip(i + 1 as int)) =~= replace_qq(low@));
            }
            i += 1;
        }
    }
    proof {
        assert(low@.skip(low@.len() as int) =~= Seq::<char>::empty());
        assert(rep@ + replace_qq(low@.skip(low@.len() as int)) =~= rep@);
        assert(rep@ == replace_qq(lower_seq(piece)));
    }
    // Strip non-alphabetic characters from both ends.
    let mut lo: usize = 0;
    proof {
        assert(rep@.skip(0) =~= rep@);
    }
    while lo < rep.len() && !is_alpha_char(rep[lo])
        invariant
            lo <= rep@.len(),
            strip_lead(rep@) == strip_lead(rep@.skip(lo as int)),
        decreases rep@.len() - lo,
    {
        proof {
            assert(rep@.skip(lo as int).skip(1) =~= rep@.skip(lo + 1 as int));
        }
        lo += 1;
    }
    proof {
        if lo < rep@.len() {
            assert(strip_lead(rep@.skip(lo as int)) == rep@.skip(lo as int));
        } else {
            assert(rep@.skip(lo as int) =~= Seq::<char>::empty());
        }
        assert(strip_lead(rep@) == rep@.skip(lo as int));
    }
    let ghost led = rep@.skip(lo as int);
    let mut hi: usize = rep.len();
    while hi > lo && !is_alpha_char(rep[hi - 1])
        invariant
            lo <= hi <= rep@.len(),
            strip_trail(led) == strip_trail(rep@.subrange(lo as int, hi as int)),
        decreases hi,
    {
        proof {
            let cur = rep@.subrange(lo as int, hi as int);
            assert(cur.len() > 0 && cur.last() == rep@[hi - 1]);
            assert(cur.drop_last() =~= rep@.subrange(lo as int, hi - 1 as int));
        }
        hi -= 1;
    }
    proof {
        let cur = rep@.subrange(lo as int, hi as int);
        if hi > lo {
            assert(cur.last() == rep@[hi - 1]);
            assert(strip_trail(cur) == cur);
        } else {
            assert(cur =~= Seq::<char>::empty());
        }
        assert(strip_trail(led) == rep@.subrange(lo as int, hi as int));
    }
    // Copy out the kept range.
    let mut out: Vec<char> = Vec::new();
    let mut k: usize = lo;
    while k < hi
        invariant
            lo <= k <= hi,
            out@ == rep@.subrange(lo as int, k as int),
        decreases hi - k,
    {
        out.push(rep[k]);
        proof {
            assert(rep@.subrange(lo as int, k + 1 as int) =~= rep@.subrange(
                lo as int,
                k as int,
            ).push(rep@[k as int]));
        }
        k += 1;
    }
    proof {
        assert(led =~= rep@.skip(lo as int));
        assert(out@ == clean(piece));
    }
    out
}

/// Whether the tokenizer splits on this character.
pub(crate) fn is_sep(c: char) -> (r: bool)
    ensures
        r == sep_char(c),
{
    is_space_char(c) || c == '.'
}

/// Filtering a sequence extended by one element keeps the front and appends
/// the element exactly when it passes.
proof fn lemma_keep_all_push(ts: Seq<Seq<char>>, t: Seq<char>)
    ensures
        keep_token(t) ==> keep_all(ts.push(t)) == keep_all(ts).push(t),
        !keep_token(t) ==> keep_all(ts.push(t)) == keep_all(ts),
{
    reveal_with_fuel(Seq::filter, 2);
    assert(ts.push(t).drop_last() =~= ts);
    assert(ts.push(t).last() == t);
}

/// Normalizing a sequence of pieces extended by one piece.
proof fn lemma_clean_all_push(ps: Seq<Seq<char>>, p: Seq<char>)
    ensures
        clean_all(ps.push(p)) == clean_all(ps).push(clean(p)),
{
    assert(clean_all(ps.push(p)) =~= clean_all(ps).push(clean(p)));
}

/// Normalize one word.
pub fn clean_word(w: &str) -> (r: String)
    ensures
        r@ == clean(w@),
{
    let cs = chars_vec(w);
    proof {
        assert(cs@.subrange(0, cs@.len() as int) =~= cs@);
    }
    let t = clean_range(&cs, 0, cs.len());
    string_from_chars(&t)
}

/// Whether a cleaned piece is kept as a token.
fn keep_piece(t: &Vec<char>) -> (r: bool)
    ensures
        r == keep_token(t@),
{
    t.len() > 1 || (t.len() == 1 && t[0] == 'i')
}

/// Tokenize a raw text: split on whitespace and `.`, normalize each piece,
/// and keep the pieces that count as tokens, in input order.
#[verifier::loop_isolation(false)]
pub fn create_corpus(corpus: &str) -> (r: Vec<String>)
    ensures
        seq_views(r@) == tokenize(corpus@),
{
    let cs = chars_vec(corpus);
    let mut toks: Vec<String> = Vec::new();
    let ghost mut pieces: Seq<Seq<char>> = Seq::empty();
    let mut start: usize = 0;
    let mut i: usize = 0;
    proof {
        assert(cs@.take(0) =~= Seq::<char>::empty());
        assert(cs@.subrange(0, 0) =~= Seq::<char>::empty());
        assert(split_text(cs@.take(0)) =~= pieces.push(cs@.subrange(0, 0)));
        reveal_with_fuel(Seq::filter, 2);
        assert(clean_all(pieces) =~= Seq::<Seq<char>>::empty());
        assert(seq_views(toks@) =~= keep_all(clean_all(pieces)));
    }
    while i < cs.len()
        invariant
            start <= i <= cs@.len(),
            split_text(cs@.take(i as int)) == pieces.push(
                cs@.subrange(start as int, i as int),
            ),
            seq_views(toks@) == keep_all(clean_all(pieces)),
        decreases cs@.len() - i,
    {
        let ghost cur = cs@.subrange(start as int, i as int);
        proof {
            assert(cs@.take(i + 1 as int).drop_last() =~= cs@.take(i as int));
            assert(cs@.take(i + 1 as int).last() == cs@[i as int]);
        }
        if is_sep(cs[i]) {
            let t = clean_range(&cs, start, i);
            if keep_piece(&t) {
                let s = string_from_chars(&t);
                toks.push(s);
                proof {
                    assert(seq_views(toks@) =~= keep_all(clean_all(pieces)).push(clean(cur)))
                        by {
                        assert(seq_views(toks@.drop_last()) =~= keep_all(clean_all(pieces)));
                        assert(seq_views(toks@) =~= seq_views(toks@.drop_last()).push(
                            toks@.last()@,
                        ));
                    }
                }
            }
            proof {
                lemma_clean_all_push(pieces, cur);
                lemma_keep_all_push(clean_all(pieces), clean(cur));
                pieces = pieces.push(cur);
                assert(split_text(cs@.take(i + 1 as int)) == pieces.push(
                    cs@.subrange(i + 1 as int, i + 1 as int),
                )) by {
                    assert(cs@.subrange(i + 1 as int, i + 1 as int) =~= Seq::<char>::empty());
                }
            }
            start = i + 1;
        } else {
            proof {
                let rest = split_text(cs@.take(i as int));
                assert(rest.len() == pieces.len() + 1);
                assert(rest.last() == cur);
                assert(rest.update(rest.len() - 1, rest.last().push(cs@[i as int])) =~= pieces.push(
                    cur.push(cs@[i as int]),
                ));
                assert(cur.push(cs@[i as int]) =~= cs@.subrange(start as int, i + 1 as int));
            }
        }
        i += 1;
    }
    proof {
        assert(cs@.take(cs@.len() as int) =~= cs@);
    }
    let t = clean_range(&cs, start, cs.len());
    let ghost cur = cs@.subrange(start as int, cs@.len() as int);
    if keep_piece(&t) {
        let s = string_from_chars(&t);
        toks.push(s);
        proof {
            assert(seq_views(toks@) =~= keep_all(clean_all(pieces)).push(clean(cur))) by {
                assert(seq_views(toks@.drop_last()) =~= keep_all(clean_all(pieces)));
                assert(seq_views(toks@) =~= seq_views(toks@.drop_last()).push(toks@.last()@));
            }
        }
    }
    proof {
        lemma_clean_all_push(pieces, cur);
        lemma_keep_all_push(clean_all(pieces), clean(cur));
        assert(split_text(cs@) == pieces.push(cur));
        assert(seq_views(toks@) == tokenize(corpus@));
    }
    toks
}

/// Render a token sequence back to text, joining the tokens with single
/// spaces.
#[verifier::loop_isolation(false)]
pub fn tokens_to_text(toks: &Vec<String>) -> (r: String)
    ensures
        r@ == join_tokens(seq_views(toks@)),
{
    let mut r = String::new();
    let mut idx: usize = 0;
    proof {
        assert(seq_views(toks@).take(0) =~= Seq::<Seq<char>>::empty());
    }
    while idx < toks.len()
        invariant
            idx <= toks@.len(),
            r@ == join_tokens(seq_views(toks@).take(idx as int)),
        decreases toks@.len() - idx,
    {
        let ghost prev = r@;
        if idx > 0 {
            r.append(" ");
            proof {
                reveal_strlit(" ");
                assert(" "@ =~= seq![' ']);
            }
        }
        r.append(toks[idx].as_str());
        proof {
            let tv = seq_views(toks@);
            assert(tv.take(idx + 1 as int).drop_last() =~= tv.take(idx as int));
            assert(tv.take(idx + 1 as int).last() == toks@[idx as int]@);
            if idx == 0 {
                assert(prev =~= Seq::<char>::empty());
                assert(r@ =~= toks@[0]@);
            }
        }
        idx += 1;
    }
    proof {
        assert(seq_views(toks@).take(toks@.len() as int) =~= seq_views(toks@));
    }
    r
}

} // verus!
