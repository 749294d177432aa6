//! SQL `LIKE` pattern matching: `%` matches any run of characters (possibly
//! empty), `_` matches exactly one character, and every other character
//! matches itself.
use vstd::prelude::*;

verus! {

/// Whether `text` matches `pattern` under `LIKE` rules.
pub open spec fn like_spec(text: Seq<char>, pattern: Seq<char>) -> bool
    decreases pattern.len(), text.len(),
{
    if pattern.len() == 0 {
        text.len() == 0
    } else if pattern[0] == '%' {
        like_spec(text, pattern.drop_first()) || (text.len() > 0 && like_spec(
            text.drop_first(),
            pattern,
        ))
    } else if pattern[0] == '_' {
        text.len() > 0 && like_spec(text.drop_first(), pattern.drop_first())
    } else {
        text.len() > 0 && text[0] == pattern[0] && like_spec(text.drop_first(), pattern.drop_first())
    }
}

/// A pattern without wildcards.
pub open spec fn no_wildcards(pattern: Seq<char>) -> bool {
    forall|i: int| 0 <= i < pattern.len() ==> #[trigger] pattern[i] != '%' && pattern[i] != '_'
}

/// A pattern with no wildcards matches exactly the text equal to it.
pub proof fn law_literal_pattern_is_equality(text: Seq<char>, pattern: Seq<char>)
    requires
        no_wildcards(pattern),
    ensures
        like_spec(text, pattern) <==> text == pattern,
    decreases pattern.len(),
{
    if pattern.len() == 0 {
        if text.len() != 0 {
            assert(text != pattern);
        } else {
            assert(text =~= pattern);
        }
    } else {
        assert(pattern[0] != '%' && pattern[0] != '_');
        assert(no_wildcards(pattern.drop_first())) by {
            assert forall|i: int| 0 <= i < pattern.drop_first().len() implies #[trigger] pattern.drop_first()[i]
                != '%' && pattern.drop_first()[i] != '_' by {
                assert(pattern.drop_first()[i] == pattern[i + 1]);
            }
        }
        if text.len() > 0 {
            law_literal_pattern_is_equality(text.drop_first(), pattern.drop_first());
            if text == pattern {
                assert(text.drop_first() == pattern.drop_first());
            }
            if text[0] == pattern[0] && text.drop_first() == pattern.drop_first() {
                assert(text =~= pattern) by {
                    assert forall|i: int| 0 <= i < text.len() implies text[i] == pattern[i] by {
                        if i > 0 {
                            assert(text[i] == text.drop_first()[i - 1]);
                            assert(pattern[i] == pattern.drop_first()[i - 1]);
                        }
                    }
                }
            }
        } else {
            assert(text != pattern);
        }
    }
}

/// `%` matches any run of characters: a pattern that starts with `%`
/// matches a text exactly when the rest of the pattern matches some suffix
/// of the text.
pub proof fn law_percent_matches_any_run(text: Seq<char>, pattern: Seq<char>)
    requires
        pattern.len() > 0,
        pattern[0] == '%',
    ensures
        like_spec(text, pattern) <==> exists|k: int|
            0 <= k <= text.len() && #[trigger] like_spec(text.skip(k), pattern.drop_first()),
    decreases text.len(),
{
    let q = pattern.drop_first();
    assert(text.skip(0) =~= text);
    assert(like_spec(text, pattern) == (like_spec(text, q) || (text.len() > 0 && like_spec(text.drop_first(), pattern))));
    if like_spec(text, q) {
        assert(like_spec(text.skip(0), q));
    }
    if text.len() > 0 {
        let t1 = text.drop_first();
        law_percent_matches_any_run(t1, pattern);
        if like_spec(t1, pattern) {
            let k = choose|k: int| 0 <= k <= t1.len() && #[trigger] like_spec(t1.skip(k), q);
            assert(t1.skip(k) =~= text.skip(k + 1));
            assert(like_spec(text.skip(k + 1), q));
        }
        if exists|k: int| 0 <= k <= text.len() && #[trigger] like_spec(text.skip(k), q) {
            let k = choose|k: int| 0 <= k <= text.len() && #[trigger] like_spec(text.skip(k), q);
            if k > 0 {
                assert(t1.skip(k - 1) =~= text.skip(k));
                assert(like_spec(t1.skip(k - 1), q));
            }
        }
    } else {
        if exists|k: int| 0 <= k <= text.len() && #[trigger] like_spec(text.skip(k), q) {
            let k = choose|k: int| 0 <= k <= text.len() && #[trigger] like_spec(text.skip(k), q);
            assert(k == 0);
        }
    }
}

/// `LIKE` matching, character by character: an empty pattern matches only
/// the empty text; `%` matches when the rest of the pattern matches some
/// suffix of the text; `_` takes one character; any other character must
/// be the text's first. These equations determine the match on every text
/// and pattern (each step shortens the pattern), so they say what
/// `like_spec`, and with it `like_match`, computes.
pub proof fn law_like_by_characters(text: Seq<char>, pattern: Seq<char>)
    ensures
        pattern.len() == 0 ==> (like_spec(text, pattern) <==> text.len() == 0),
        pattern.len() > 0 && pattern[0] == '%' ==> (like_spec(text, pattern) <==> exists|k: int|
            0 <= k <= text.len() && #[trigger] like_spec(text.skip(k), pattern.drop_first())),
        pattern.len() > 0 && pattern[0] == '_' ==> (like_spec(text, pattern) <==> text.len() > 0 && like_spec(
            text.drop_first(),
            pattern.drop_first(),
        )),
        pattern.len() > 0 && pattern[0] != '%' && pattern[0] != '_' ==> (like_spec(text, pattern) <==> text.len() > 0
            && text[0] == pattern[0] && like_spec(text.drop_first(), pattern.drop_first())),
{
    if pattern.len() > 0 && pattern[0] == '%' {
        law_percent_matches_any_run(text, pattern);
    }
}

/// A pattern made only of `%` matches every text.
pub proof fn law_percent_matches_everything(text: Seq<char>)
    ensures
        like_spec(text, seq!['%']),
    decreases text.len(),
{
    let p = seq!['%'];
    assert(p.drop_first() =~= Seq::<char>::empty());
    if text.len() > 0 {
        law_percent_matches_everything(text.drop_first());
    } else {
        assert(like_spec(text, p.drop_first()));
    }
}

/// `_` matches exactly one character: a pattern of `n` underscores matches
/// exactly the texts of length `n`.
pub proof fn law_underscores_match_length(text: Seq<char>, n: nat)
    ensures
        like_spec(text, Seq::new(n, |i: int| '_')) <==> text.len() == n,
    decreases n,
{
    let p = Seq::new(n, |i: int| '_');
    if n > 0 {
        assert(p.drop_first() =~= Seq::new((n - 1) as nat, |i: int| '_'));
        if text.len() > 0 {
            law_underscores_match_length(text.drop_first(), (n - 1) as nat);
        }
    }
}

/// A pattern that starts with a literal prefix followed by `%` matches
/// exactly the texts that start with that prefix.
pub proof fn law_prefix_percent(text: Seq<char>, prefix: Seq<char>)
    requires
        no_wildcards(prefix),
    ensures
        like_spec(text, prefix.push('%')) <==> (prefix.len() <= text.len() && text.subrange(
            0,
            prefix.len() as int,
        ) == prefix),
    decreases prefix.len(),
{
    let p = prefix.push('%');
    if prefix.len() == 0 {
        assert(p =~= seq!['%']);
        law_percent_matches_everything(text);
        assert(text.subrange(0, 0) =~= prefix);
    } else {
        assert(p[0] == prefix[0]);
        assert(prefix[0] != '%' && prefix[0] != '_');
        assert(p.drop_first() =~= prefix.drop_first().push('%'));
        assert(no_wildcards(prefix.drop_first())) by {
            assert forall|i: int| 0 <= i < prefix.drop_first().len() implies #[trigger] prefix.drop_first()[i]
                != '%' && prefix.drop_first()[i] != '_' by {
                assert(prefix.drop_first()[i] == prefix[i + 1]);
            }
        }
        if text.len() > 0 {
            law_prefix_percent(text.drop_first(), prefix.drop_first());
            let t = text;
            if prefix.len() <= t.len() {
                let tp = t.subrange(0, prefix.len() as int);
                let tq = t.drop_first().subrange(0, prefix.len() - 1);
                assert(tq =~= tp.drop_first());
                if tp == prefix {
                    assert(tp.drop_first() == prefix.drop_first());
                    assert(tp[0] == t[0]);
                }
                if t[0] == prefix[0] && tq == prefix.drop_first() {
                    assert(tp =~= prefix) by {
                        assert forall|i: int| 0 <= i < tp.len() implies tp[i] == prefix[i] by {
                            if i > 0 {
                                assert(tp[i] == tq[i - 1]);
                                assert(prefix[i] == prefix.drop_first()[i - 1]);
                            }
                        }
                    }
                }
            }
        }
    }
}

/// The characters of a string, in order.
pub fn chars_of(s: &str) -> (chars: Vec<char>)
    ensures
        chars@ == s@,
{
    let n = s.unicode_len();
    let mut chars: Vec<char> = Vec::new();
    let mut i: usize = 0;
    while i < n
        invariant
            i <= n,
            n == s@.len(),
            chars@ =~= s@.subrange(0, i as int),
        decreases n - i,
    {
        chars.push(s.get_char(i));
        i = i + 1;
    }
    chars
}

/// Whether `text` matches the SQL `LIKE` pattern `pattern`.
pub fn like_match(text: &str, pattern: &str) -> (matched: bool)
    ensures
        matched == like_spec(text@, pattern@),
{
    let text: Vec<char> = chars_of(text);
    let pattern: Vec<char> = chars_of(pattern);
    assert(text@.subrange(0, text@.len() as int) =~= text@);
    assert(pattern@.subrange(0, pattern@.len() as int) =~= pattern@);
    like_match_from(&text, &pattern, 0, 0)
}

/// Whether the text from position `ti` on matches the pattern from position
/// `pi` on.
pub fn like_match_from(text: &[char], pattern: &[char], ti: usize, pi: usize) -> (matched: bool)
    requires
        ti <= text@.len(),
        pi <= pattern@.len(),
    ensures
        matched == like_spec(
            text@.subrange(ti as int, text@.len() as int),
            pattern@.subrange(pi as int, pattern@.len() as int),
        ),
    decreases pattern@.len() - pi, text@.len() - ti,
{
    let ghost t = text@.subrange(ti as int, text@.len() as int);
    let ghost p = pattern@.subrange(pi as int, pattern@.len() as int);
    if pi == pattern.len() {
        return ti == text.len();
    }
    proof {
        assert(p[0] == pattern@[pi as int]);
        assert(p.drop_first() =~= pattern@.subrange(pi + 1, pattern@.len() as int));
        if ti < text@.len() {
            assert(t[0] == text@[ti as int]);
            assert(t.drop_first() =~= text@.subrange(ti + 1, text@.len() as int));
        }
    }
    let c = pattern[pi];
    if c == '%' {
        like_match_from(text, pattern, ti, pi + 1) || (ti < text.len() && like_match_from(
            text,
            pattern,
            ti + 1,
            pi,
        ))
    } else if c == '_' {
        ti < text.len() && like_match_from(text, pattern, ti + 1, pi + 1)
    } else {
        ti < text.len() && text[ti] == c && like_match_from(text, pattern, ti + 1, pi + 1)
    }
}

} // verus!
