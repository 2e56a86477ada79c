//! Masking secrets out of what the model sees, so that they can be put back.
use crate::hash::{content_key, is_hex_char, law_keys_are_64_hex_digits, ContentHash};
use crate::text::{
    begins, begins_any, begins_any_str, chars_of, contains_text, is_white, law_occurrence, occurs_at,
    white,
};
use vstd::prelude::*;
use vstd::utf8::encode_utf8;

verus! {

/// A secret that was masked.
#[derive(Debug, PartialEq, Eq)]
pub struct Secret {
    /// The marker that stands for the secret in the masked text.
    pub marker: String,
    /// The secret itself.
    pub value: String,
    /// The content hash of the secret.
    pub hash: ContentHash,
}

/// A text with its secrets masked.
#[derive(Debug, PartialEq, Eq)]
pub struct Redacted {
    /// The text for the model.
    pub masked: String,
    /// The secrets, in the order in which they were found.
    pub secrets: Vec<Secret>,
}

/// How the tokens and keys of known providers begin.
pub open spec fn secret_prefixes() -> Seq<&'static str> {
    seq![
        "sk-",
        "sk_live_",
        "pk_live_",
        "rk_live_",
        "ghp_",
        "gho_",
        "ghs_",
        "ghu_",
        "github_pat_",
        "glpat-",
        "xoxb-",
        "xoxp-",
        "xoxa-",
        "AKIA",
        "ASIA",
        "AIza",
        "ya29.",
        "AGPA",
    ]
}

/// A token that is long enough for a key, at least 12 bytes, and begins like one.
pub open spec fn secret_like(token: Seq<char>) -> bool {
    encode_utf8(token).len() >= 12 && begins_any(token, secret_prefixes())
}

/// A character that ends a token.
pub open spec fn separates(c: char) -> bool {
    ||| white(c)
    ||| c == '"'
    ||| c == '\''
    ||| c == ','
    ||| c == ':'
    ||| c == ';'
    ||| c == '='
    ||| c == '('
    ||| c == ')'
    ||| c == '{'
    ||| c == '}'
    ||| c == '['
    ||| c == ']'
    ||| c == '<'
    ||| c == '>'
    ||| c == '&'
    ||| c == '?'
    ||| c == '/'
    ||| c == '\\'
    ||| c == '`'
    ||| c == '|'
}

/// The marker of a secret.
pub open spec fn marker_of(secret: Seq<char>) -> Seq<char> {
    "<<cof-redacted:"@ + content_key(encode_utf8(secret)).take(12) + ">>"@
}

/// A part of a text.
pub enum Part {
    /// A separator.
    Separator(char),
    /// A token that is no secret.
    Plain(Seq<char>),
    /// A secret.
    Secret(Seq<char>),
}

/// The part's own text.
pub open spec fn part_text(part: Part) -> Seq<char> {
    match part {
        Part::Separator(c) => seq![c],
        Part::Plain(token) => token,
        Part::Secret(token) => token,
    }
}

/// What the model sees of the part.
pub open spec fn part_masked(part: Part) -> Seq<char> {
    match part {
        Part::Separator(c) => seq![c],
        Part::Plain(token) => token,
        Part::Secret(token) => marker_of(token),
    }
}

/// The text that the parts make up.
pub open spec fn parts_text(parts: Seq<Part>) -> Seq<char>
    decreases parts.len(),
{
    if parts.len() == 0 {
        Seq::empty()
    } else {
        parts_text(parts.drop_last()) + part_text(parts.last())
    }
}

/// What the model sees of the parts.
pub open spec fn parts_masked(parts: Seq<Part>) -> Seq<char>
    decreases parts.len(),
{
    if parts.len() == 0 {
        Seq::empty()
    } else {
        parts_masked(parts.drop_last()) + part_masked(parts.last())
    }
}

/// The secrets among the parts, in order.
pub open spec fn parts_secrets(parts: Seq<Part>) -> Seq<Seq<char>>
    decreases parts.len(),
{
    if parts.len() == 0 {
        Seq::empty()
    } else {
        match parts.last() {
            Part::Secret(token) => parts_secrets(parts.drop_last()).push(token),
            _ => parts_secrets(parts.drop_last()),
        }
    }
}

/// The parts with one more token; an empty one is none.
pub open spec fn with_token(parts: Seq<Part>, token: Seq<char>) -> Seq<Part> {
    if token.len() == 0 {
        parts
    } else if secret_like(token) {
        parts.push(Part::Secret(token))
    } else {
        parts.push(Part::Plain(token))
    }
}

/// The parts of a text before its last token, and that token.
pub open spec fn cut(text: Seq<char>) -> (Seq<Part>, Seq<char>)
    decreases text.len(),
{
    if text.len() == 0 {
        (Seq::empty(), Seq::empty())
    } else {
        let before = cut(text.drop_last());
        if separates(text.last()) {
            (with_token(before.0, before.1).push(Part::Separator(text.last())), Seq::empty())
        } else {
            (before.0, before.1.push(text.last()))
        }
    }
}

/// The parts of a text: tokens and the separators between them.
pub open spec fn parts_of(text: Seq<char>) -> Seq<Part> {
    with_token(cut(text).0, cut(text).1)
}

proof fn lemma_push_part(parts: Seq<Part>, part: Part)
    ensures
        parts_text(parts.push(part)) == parts_text(parts) + part_text(part),
        parts_masked(parts.push(part)) == parts_masked(parts) + part_masked(part),
        parts_secrets(parts.push(part)) == (match part {
            Part::Secret(token) => parts_secrets(parts).push(token),
            _ => parts_secrets(parts),
        }),
{
    assert(parts.push(part).drop_last() =~= parts);
}

proof fn lemma_with_token(parts: Seq<Part>, token: Seq<char>)
    ensures
        parts_text(with_token(parts, token)) == parts_text(parts) + token,
{
    if token.len() == 0 {
        assert(parts_text(parts) + token =~= parts_text(parts));
    } else if secret_like(token) {
        lemma_push_part(parts, Part::Secret(token));
    } else {
        lemma_push_part(parts, Part::Plain(token));
    }
}

proof fn lemma_cut(text: Seq<char>)
    ensures
        parts_text(cut(text).0) + cut(text).1 == text,
        forall|i: int| 0 <= i < cut(text).1.len() ==> !separates(#[trigger] cut(text).1[i]),
        all_sound(cut(text).0),
    decreases text.len(),
{
    if text.len() == 0 {
        assert(parts_text(Seq::<Part>::empty()) + Seq::<char>::empty() =~= text);
    } else {
        let before = cut(text.drop_last());
        lemma_cut(text.drop_last());
        if separates(text.last()) {
            let done = with_token(before.0, before.1);
            lemma_with_token(before.0, before.1);
            lemma_push_part(done, Part::Separator(text.last()));
            assert(parts_text(cut(text).0) + cut(text).1 =~= text.drop_last().push(text.last()));
            assert(text.drop_last().push(text.last()) =~= text);
            lemma_sound_token(before.0, before.1);
            lemma_sound_push(done, Part::Separator(text.last()));
        } else {
            assert(parts_text(before.0) + before.1.push(text.last()) =~= (parts_text(before.0)
                + before.1).push(text.last()));
            assert(text.drop_last().push(text.last()) =~= text);
        }
    }
}

/// A separator separates; a token holds no separator, and it is a secret exactly
/// if it looks like one.
pub open spec fn sound_part(part: Part) -> bool {
    match part {
        Part::Separator(c) => separates(c),
        Part::Plain(token) => !secret_like(token) && forall|i: int|
            0 <= i < token.len() ==> !separates(#[trigger] token[i]),
        Part::Secret(token) => secret_like(token) && forall|i: int|
            0 <= i < token.len() ==> !separates(#[trigger] token[i]),
    }
}

/// Every part is sound.
pub open spec fn all_sound(parts: Seq<Part>) -> bool {
    forall|i: int| 0 <= i < parts.len() ==> sound_part(#[trigger] parts[i])
}

proof fn lemma_sound_push(parts: Seq<Part>, part: Part)
    requires
        all_sound(parts),
        sound_part(part),
    ensures
        all_sound(parts.push(part)),
{
}

proof fn lemma_sound_token(parts: Seq<Part>, token: Seq<char>)
    requires
        all_sound(parts),
        forall|i: int| 0 <= i < token.len() ==> !separates(#[trigger] token[i]),
    ensures
        all_sound(with_token(parts, token)),
{
    if secret_like(token) {
        lemma_sound_push(parts, Part::Secret(token));
    } else {
        lemma_sound_push(parts, Part::Plain(token));
    }
}

/// The parts of a text make it up, and a token among them is a secret exactly if
/// it looks like one.
pub proof fn law_parts_make_up_the_text(text: Seq<char>)
    ensures
        parts_text(parts_of(text)) == text,
        all_sound(parts_of(text)),
{
    lemma_cut(text);
    lemma_with_token(cut(text).0, cut(text).1);
    lemma_sound_token(cut(text).0, cut(text).1);
}

/// A text without secrets is left as it is.
pub proof fn law_text_without_secrets_is_unchanged(text: Seq<char>)
    requires
        parts_secrets(parts_of(text)).len() == 0,
    ensures
        parts_masked(parts_of(text)) == text,
{
    law_parts_make_up_the_text(text);
    lemma_unmasked(parts_of(text));
}

proof fn lemma_unmasked(parts: Seq<Part>)
    requires
        parts_secrets(parts).len() == 0,
    ensures
        parts_masked(parts) == parts_text(parts),
    decreases parts.len(),
{
    if parts.len() > 0 {
        lemma_unmasked(parts.drop_last());
    }
}

// ---------------------------------------------------------------------------
// Masking again
// ---------------------------------------------------------------------------

/// Up to its end the text has no secret, and it does not end inside of a token.
spec fn clean(text: Seq<char>) -> bool {
    parts_secrets(cut(text).0).len() == 0 && cut(text).1.len() == 0
}

proof fn lemma_cut_run(text: Seq<char>, run: Seq<char>)
    requires
        forall|i: int| 0 <= i < run.len() ==> !separates(#[trigger] run[i]),
    ensures
        cut(text + run) == (cut(text).0, cut(text).1 + run),
    decreases run.len(),
{
    if run.len() == 0 {
        assert(text + run =~= text);
        assert(cut(text).1 + run =~= cut(text).1);
    } else {
        let before = run.drop_last();
        assert(forall|i: int| 0 <= i < before.len() ==> #[trigger] before[i] == run[i]);
        lemma_cut_run(text, before);
        assert((text + run).drop_last() =~= text + before);
        assert((text + run).last() == run[run.len() - 1]);
        assert((cut(text).1 + before).push(run.last()) =~= cut(text).1 + run);
    }
}

/// After a token that is no secret, or none, and a separator the text is clean.
proof fn lemma_clean_token(text: Seq<char>, token: Seq<char>, c: char)
    requires
        clean(text),
        forall|i: int| 0 <= i < token.len() ==> !separates(#[trigger] token[i]),
        !secret_like(token),
        separates(c),
    ensures
        clean((text + token).push(c)),
{
    lemma_cut_run(text, token);
    assert(cut(text).1 + token =~= token);
    let longer = (text + token).push(c);
    assert(longer.drop_last() =~= text + token);
    let done = with_token(cut(text).0, token);
    if token.len() > 0 {
        lemma_push_part(cut(text).0, Part::Plain(token));
    }
    lemma_push_part(done, Part::Separator(c));
}

/// A token that begins with a lowercase letter from `a` to `f` or a digit is no
/// secret.
proof fn lemma_no_secret(token: Seq<char>)
    requires
        token.len() > 0,
        is_hex_char(token[0]),
    ensures
        !secret_like(token),
{
    reveal_strlit("sk-");
    reveal_strlit("sk_live_");
    reveal_strlit("pk_live_");
    reveal_strlit("rk_live_");
    reveal_strlit("ghp_");
    reveal_strlit("gho_");
    reveal_strlit("ghs_");
    reveal_strlit("ghu_");
    reveal_strlit("github_pat_");
    reveal_strlit("glpat-");
    reveal_strlit("xoxb-");
    reveal_strlit("xoxp-");
    reveal_strlit("xoxa-");
    reveal_strlit("AKIA");
    reveal_strlit("ASIA");
    reveal_strlit("AIza");
    reveal_strlit("ya29.");
    reveal_strlit("AGPA");
    let words = secret_prefixes();
    assert forall|i: int| 0 <= i < words.len() implies !begins(token, #[trigger] words[i]@) by {
        if begins(token, words[i]@) {
            assert(token.subrange(0, words[i]@.len() as int)[0] == token[0]);
            assert(words[i]@[0] == token[0]);
        }
    }
}

/// No secret is empty.
proof fn lemma_empty_is_no_secret()
    ensures
        !secret_like(Seq::empty()),
{
}

/// After a marker the text is clean.
proof fn lemma_clean_marker(text: Seq<char>, secret: Seq<char>)
    requires
        clean(text),
    ensures
        clean(text + marker_of(secret)),
{
    let digits = content_key(encode_utf8(secret)).take(12);
    law_keys_are_64_hex_digits(encode_utf8(secret));
    reveal_strlit("<<cof-redacted:");
    reveal_strlit(">>");
    let none = Seq::<char>::empty();
    let word = "<<cof-redacted:"@.subrange(2, 14);
    lemma_empty_is_no_secret();
    lemma_no_secret(word);
    lemma_no_secret(digits);
    assert forall|i: int| 0 <= i < digits.len() implies !separates(#[trigger] digits[i]) by {
        assert(is_hex_char(content_key(encode_utf8(secret))[i]));
    }
    let a = (text + none).push('<');
    lemma_clean_token(text, none, '<');
    let b = (a + none).push('<');
    lemma_clean_token(a, none, '<');
    let c = (b + word).push(':');
    lemma_clean_token(b, word, ':');
    let d = (c + digits).push('>');
    lemma_clean_token(c, digits, '>');
    let e = (d + none).push('>');
    lemma_clean_token(d, none, '>');
    assert(c =~= text + "<<cof-redacted:"@);
    assert(e =~= text + marker_of(secret));
}

proof fn lemma_masked_is_clean(text: Seq<char>)
    ensures
        clean(parts_masked(cut(text).0)),
    decreases text.len(),
{
    if text.len() == 0 {
        assert(parts_masked(cut(text).0) =~= Seq::empty());
    } else {
        let before = cut(text.drop_last());
        lemma_masked_is_clean(text.drop_last());
        lemma_cut(text.drop_last());
        let c = text.last();
        if separates(c) {
            let done = with_token(before.0, before.1);
            let shown = parts_masked(before.0);
            lemma_push_part(done, Part::Separator(c));
            assert(parts_masked(done) + seq![c] =~= parts_masked(done).push(c));
            if secret_like(before.1) && before.1.len() > 0 {
                lemma_push_part(before.0, Part::Secret(before.1));
                lemma_clean_marker(shown, before.1);
                lemma_empty_is_no_secret();
                lemma_clean_token(parts_masked(done), Seq::empty(), c);
                assert(parts_masked(done) + Seq::<char>::empty() =~= parts_masked(done));
            } else {
                if before.1.len() > 0 {
                    lemma_push_part(before.0, Part::Plain(before.1));
                } else {
                    lemma_empty_is_no_secret();
                    assert(before.1 =~= Seq::empty());
                    assert(shown + before.1 =~= shown);
                }
                lemma_clean_token(shown, before.1, c);
            }
        }
    }
}

/// No token of a masked text looks like a secret, so that masking it again
/// changes nothing and finds nothing.
pub proof fn law_masking_again_changes_nothing(text: Seq<char>)
    ensures
        ({
            let masked = parts_masked(parts_of(text));
            &&& forall|i: int|
                0 <= i < parts_of(masked).len() ==> !((#[trigger] parts_of(masked)[i]) is Secret)
            &&& parts_secrets(parts_of(masked)).len() == 0
            &&& parts_masked(parts_of(masked)) == masked
        }),
{
    let (parts, token) = cut(text);
    let shown = parts_masked(parts);
    let masked = parts_masked(parts_of(text));
    lemma_masked_is_clean(text);
    lemma_cut(text);
    if token.len() > 0 && secret_like(token) {
        lemma_push_part(parts, Part::Secret(token));
        lemma_clean_marker(shown, token);
    } else if token.len() > 0 {
        lemma_push_part(parts, Part::Plain(token));
        lemma_cut_run(shown, token);
        assert(cut(shown).1 + token =~= token);
        lemma_push_part(cut(shown).0, Part::Plain(token));
    }
    law_text_without_secrets_is_unchanged(masked);
    lemma_no_secret_part(parts_of(masked));
}

proof fn lemma_no_secret_part(parts: Seq<Part>)
    requires
        parts_secrets(parts).len() == 0,
    ensures
        forall|i: int| 0 <= i < parts.len() ==> !((#[trigger] parts[i]) is Secret),
    decreases parts.len(),
{
    if parts.len() > 0 {
        let before = parts.drop_last();
        lemma_no_secret_part(before);
        assert forall|i: int| 0 <= i < parts.len() implies !((#[trigger] parts[i]) is Secret) by {
            if i < before.len() {
                assert(before[i] == parts[i]);
            }
        }
    }
}

// ---------------------------------------------------------------------------
// Putting the secrets back
// ---------------------------------------------------------------------------

/// `word` stands at `i` in the text, and nowhere before.
pub open spec fn first_at(text: Seq<char>, word: Seq<char>, i: int) -> bool {
    occurs_at(text, word, i) && forall|j: int| 0 <= j < i ==> !#[trigger] occurs_at(text, word, j)
}

/// The text with `by` in the place of the first `word`, if there is one.
pub open spec fn replaced_first(text: Seq<char>, word: Seq<char>, by: Seq<char>) -> Seq<char> {
    if exists|i: int| first_at(text, word, i) {
        let i = choose|i: int| first_at(text, word, i);
        text.take(i) + by + text.skip(i + word.len())
    } else {
        text
    }
}

/// The masked text with each of the secrets, in order, in the place of the first
/// marker of it.
pub open spec fn put_back(masked: Seq<char>, secrets: Seq<Seq<char>>) -> Seq<char>
    decreases secrets.len(),
{
    if secrets.len() == 0 {
        masked
    } else {
        put_back(
            replaced_first(masked, marker_of(secrets[0]), secrets[0]),
            secrets.skip(1),
        )
    }
}

proof fn lemma_parts_split(parts: Seq<Part>, p: int)
    requires
        0 <= p < parts.len(),
    ensures
        parts_masked(parts.skip(p)) == part_masked(parts[p]) + parts_masked(parts.skip(p + 1)),
        parts_secrets(parts.skip(p)) == (match parts[p] {
            Part::Secret(token) => seq![token] + parts_secrets(parts.skip(p + 1)),
            _ => parts_secrets(parts.skip(p + 1)),
        }),
        parts_text(parts.take(p + 1)) == parts_text(parts.take(p)) + part_text(parts[p]),
    decreases parts.len(),
{
    assert(parts.take(p + 1).drop_last() =~= parts.take(p));
    let all = parts.skip(p);
    let rest = parts.skip(p + 1);
    let head = match parts[p] {
        Part::Secret(token) => seq![token],
        _ => Seq::empty(),
    };
    if rest.len() == 0 {
        reveal_with_fuel(parts_masked, 2);
        reveal_with_fuel(parts_secrets, 2);
        assert(all.drop_last() =~= Seq::empty());
        assert(all.last() == parts[p]);
        assert(parts_masked(all) =~= part_masked(parts[p]) + parts_masked(rest));
        assert(parts_secrets(all) =~= head + parts_secrets(rest));
    } else {
        let shorter = parts.drop_last();
        lemma_parts_split(shorter, p);
        assert(all.drop_last() =~= shorter.skip(p));
        assert(rest.drop_last() =~= shorter.skip(p + 1));
        assert(all.last() == rest.last());
        assert(parts_masked(all) =~= part_masked(parts[p]) + parts_masked(rest));
        assert(parts_secrets(all) =~= head + parts_secrets(rest));
    }
}

/// The parts before `p` with their secrets, the others masked.
spec fn half_masked(parts: Seq<Part>, p: int) -> Seq<char> {
    parts_text(parts.take(p)) + parts_masked(parts.skip(p))
}

/// In a text without markers, followed by a marker, the marker stands nowhere
/// before.
proof fn lemma_marker_is_first(before: Seq<char>, secret: Seq<char>, after: Seq<char>)
    requires
        !contains_text(before, "<<cof-redacted:"@),
    ensures
        first_at(before + marker_of(secret) + after, marker_of(secret), before.len() as int),
{
    let word = "<<cof-redacted:"@;
    let mark = marker_of(secret);
    let text = before + mark + after;
    let n = before.len() as int;
    law_keys_are_64_hex_digits(encode_utf8(secret));
    reveal_strlit("<<cof-redacted:");
    assert(text.subrange(n, n + mark.len()) =~= mark);
    assert forall|j: int| 0 <= j < n implies !#[trigger] occurs_at(text, mark, j) by {
        if occurs_at(text, mark, j) {
            assert(forall|k: int| 0 <= k < mark.len() ==> text[j + k] == #[trigger] mark[k]) by {
                assert forall|k: int| 0 <= k < mark.len() implies text[j + k]
                    == #[trigger] mark[k] by {
                    assert(text.subrange(j, j + mark.len())[k] == mark[k]);
                }
            }
            assert(forall|k: int| 0 <= k < word.len() ==> #[trigger] mark[k] == word[k]);
            if j + word.len() <= n {
                assert(before.subrange(j, j + word.len()) =~= word) by {
                    assert forall|k: int| 0 <= k < word.len() implies before.subrange(
                        j,
                        j + word.len(),
                    )[k] == word[k] by {
                        assert(text[j + k] == mark[k]);
                    }
                }
                assert(occurs_at(before, word, j));
            } else {
                let d = n - j;
                assert(text[j + d] == mark[d]);
                assert(text[n] == mark[0]);
                assert(mark[d] == word[d]);
                if d == 1 {
                    assert(text[j + 2] == mark[2]);
                    assert(text[n + 1] == mark[1]);
                }
            }
        }
    }
}

proof fn lemma_put_back(parts: Seq<Part>, p: int)
    requires
        0 <= p <= parts.len(),
        !contains_text(parts_text(parts), "<<cof-redacted:"@),
    ensures
        put_back(half_masked(parts, p), parts_secrets(parts.skip(p))) == parts_text(parts),
    decreases parts.len() - p,
{
    if p == parts.len() {
        assert(parts.take(p) =~= parts);
        assert(half_masked(parts, p) =~= parts_text(parts));
    } else {
        lemma_parts_split(parts, p);
        lemma_put_back(parts, p + 1);
        let before = parts_text(parts.take(p));
        let after = parts_masked(parts.skip(p + 1));
        match parts[p] {
            Part::Secret(token) => {
                let secrets = parts_secrets(parts.skip(p));
                let mark = marker_of(token);
                let text = half_masked(parts, p);
                assert(text =~= before + mark + after);
                lemma_prefix_holds_no_more(parts, p, "<<cof-redacted:"@);
                lemma_marker_is_first(before, token, after);
                let n = before.len() as int;
                assert(first_at(text, mark, n));
                let i = choose|i: int| first_at(text, mark, i);
                assert(i == n) by {
                    if i < n {
                        assert(!occurs_at(text, mark, i));
                    } else if n < i {
                        assert(!occurs_at(text, mark, n));
                    }
                }
                assert(text.take(n) =~= before);
                assert(text.skip(n + mark.len()) =~= after);
                assert(replaced_first(text, mark, token) =~= half_masked(parts, p + 1));
                assert(secrets[0] == token);
                assert(secrets.skip(1) =~= parts_secrets(parts.skip(p + 1)));
            },
            _ => {
                assert(half_masked(parts, p) =~= half_masked(parts, p + 1));
            },
        }
    }
}

/// What the text does not hold, the text of its first parts does not hold.
proof fn lemma_prefix_holds_no_more(parts: Seq<Part>, p: int, word: Seq<char>)
    requires
        0 <= p <= parts.len(),
        !contains_text(parts_text(parts), word),
    ensures
        !contains_text(parts_text(parts.take(p)), word),
    decreases parts.len() - p,
{
    if p == parts.len() {
        assert(parts.take(p) =~= parts);
    } else {
        lemma_prefix_holds_no_more(parts, p + 1, word);
        lemma_parts_split(parts, p);
        let less = parts_text(parts.take(p));
        let more = parts_text(parts.take(p + 1));
        assert forall|i: int| !#[trigger] occurs_at(less, word, i) by {
            if occurs_at(less, word, i) {
                assert(more.subrange(i, i + word.len()) =~= less.subrange(i, i + word.len()));
                assert(occurs_at(more, word, i));
            }
        }
    }
}

/// Masking can be undone: in the masked text, each secret in order put in the
/// place of the first marker of it gives the text, for a text that itself holds
/// nothing that begins like a marker.
pub proof fn law_secrets_can_be_put_back(text: Seq<char>)
    requires
        !contains_text(text, "<<cof-redacted:"@),
    ensures
        put_back(parts_masked(parts_of(text)), parts_secrets(parts_of(text))) == text,
{
    let parts = parts_of(text);
    law_parts_make_up_the_text(text);
    lemma_put_back(parts, 0);
    assert(parts.skip(0) =~= parts);
    assert(parts.take(0) =~= Seq::empty());
    assert(half_masked(parts, 0) =~= parts_masked(parts));
}

/// The secrets as plain values.
pub open spec fn secret_values(secrets: Seq<Secret>) -> Seq<Seq<char>> {
    Seq::new(secrets.len(), |i: int| secrets[i].value@)
}

/// Each secret has its own marker and hash.
pub open spec fn secrets_marked(secrets: Seq<Secret>) -> bool {
    forall|i: int|
        0 <= i < secrets.len() ==> {
            &&& (#[trigger] secrets[i]).marker@ == marker_of(secrets[i].value@)
            &&& secrets[i].hash@ == content_key(encode_utf8(secrets[i].value@))
        }
}

fn is_sep(c: char) -> (r: bool)
    ensures
        r == separates(c),
{
    is_white(c) || c == '"' || c == '\'' || c == ',' || c == ':' || c == ';' || c == '=' || c == '('
        || c == ')' || c == '{' || c == '}' || c == '[' || c == ']' || c == '<' || c == '>' || c
        == '&' || c == '?' || c == '/' || c == '\\' || c == '`' || c == '|'
}

/// Whether `token` looks like a key.
pub fn looks_secret(token: &str) -> (r: bool)
    ensures
        r == secret_like(token@),
{
    let prefixes = vec![
        "sk-",
        "sk_live_",
        "pk_live_",
        "rk_live_",
        "ghp_",
        "gho_",
        "ghs_",
        "ghu_",
        "github_pat_",
        "glpat-",
        "xoxb-",
        "xoxp-",
        "xoxa-",
        "AKIA",
        "ASIA",
        "AIza",
        "ya29.",
        "AGPA",
    ];
    assert(prefixes@ =~= secret_prefixes());
    let chars = chars_of(token);
    token.as_bytes().len() >= 12 && begins_any_str(&chars, prefixes.as_slice())
}

/// Appends the token to the masked text, masked if it is a secret.
fn flush(
    token: &str,
    masked: &mut String,
    secrets: &mut Vec<Secret>,
    Ghost(parts): Ghost<Seq<Part>>,
)
    requires
        old(masked)@ == parts_masked(parts),
        secret_values(old(secrets)@) == parts_secrets(parts),
        secrets_marked(old(secrets)@),
    ensures
        final(masked)@ == parts_masked(with_token(parts, token@)),
        secret_values(final(secrets)@) == parts_secrets(with_token(parts, token@)),
        secrets_marked(final(secrets)@),
{
    if token.unicode_len() == 0 {
        return ;
    }
    if looks_secret(token) {
        let hash = ContentHash::of(token.as_bytes());
        let marker = "<<cof-redacted:".to_owned().concat(hash.short()).concat(">>");
        masked.append(marker.as_str());
        let ghost before = secret_values(secrets@);
        secrets.push(Secret { marker, value: token.to_owned(), hash });
        proof {
            lemma_push_part(parts, Part::Secret(token@));
            assert(secret_values(secrets@) =~= before.push(token@));
        }
    } else {
        masked.append(token);
        proof {
            lemma_push_part(parts, Part::Plain(token@));
        }
    }
}

/// Masks the secrets in `text`.
pub fn redact_secrets(text: &str) -> (out: Redacted)
    ensures
        out.masked@ == parts_masked(parts_of(text@)),
        secret_values(out.secrets@) == parts_secrets(parts_of(text@)),
        secrets_marked(out.secrets@),
{
    let chars = chars_of(text);
    let mut masked = String::new();
    let mut secrets: Vec<Secret> = Vec::new();
    let mut token = String::new();
    let mut i: usize = 0;
    assert(secret_values(secrets@) =~= parts_secrets(Seq::empty()));
    assert(chars@.take(0) =~= Seq::empty());
    while i < chars.len()
        invariant
            i <= chars@.len(),
            masked@ == parts_masked(cut(chars@.take(i as int)).0),
            secret_values(secrets@) == parts_secrets(cut(chars@.take(i as int)).0),
            secrets_marked(secrets@),
            token@ == cut(chars@.take(i as int)).1,
        decreases chars@.len() - i,
    {
        let c = chars[i];
        let ghost now = chars@.take(i as int + 1);
        assert(now.drop_last() =~= chars@.take(i as int));
        assert(now.last() == c);
        let ghost before = cut(chars@.take(i as int));
        if is_sep(c) {
            flush(token.as_str(), &mut masked, &mut secrets, Ghost(before.0));
            token = String::new();
            masked.push(c);
            proof {
                let done = with_token(before.0, before.1);
                lemma_push_part(done, Part::Separator(c));
                assert(parts_masked(done).push(c) =~= parts_masked(done) + seq![c]);
            }
        } else {
            token.push(c);
        }
        i += 1;
    }
    assert(chars@.take(i as int) =~= text@);
    flush(token.as_str(), &mut masked, &mut secrets, Ghost(cut(text@).0));
    Redacted { masked, secrets }
}

// ---------------------------------------------------------------------------
// Where texts are cut
// ---------------------------------------------------------------------------

/// A text is cut at every separator and nowhere else: the parts of two texts with
/// a separator between them are those of each, and a text without any is one
/// token, however long, which is a secret exactly if it looks like one.
pub proof fn law_cutting(a: Seq<char>, c: char, b: Seq<char>)
    ensures
        separates(c) ==> parts_of(a.push(c) + b) == parts_of(a).push(Part::Separator(c)) + parts_of(
            b,
        ),
        parts_of(Seq::empty()) == Seq::<Part>::empty(),
        a.len() > 0 && (forall|i: int| 0 <= i < a.len() ==> !separates(#[trigger] a[i]))
            ==> parts_of(a) == seq![
            if secret_like(a) {
                Part::Secret(a)
            } else {
                Part::Plain(a)
            },
        ],
{
    if separates(c) {
        lemma_cut_apart(a, c, b);
        let done = parts_of(a).push(Part::Separator(c));
        assert(parts_of(a.push(c) + b) =~= done + parts_of(b));
    }
    assert(parts_of(Seq::<char>::empty()) =~= Seq::empty());
    if a.len() > 0 && (forall|i: int| 0 <= i < a.len() ==> !separates(#[trigger] a[i])) {
        lemma_cut_run(Seq::empty(), a);
        assert(Seq::<char>::empty() + a =~= a);
        assert(parts_of(a) =~= seq![
            if secret_like(a) {
                Part::Secret(a)
            } else {
                Part::Plain(a)
            },
        ]);
    }
}

proof fn lemma_push_right(a: Seq<Part>, b: Seq<Part>, part: Part)
    ensures
        (a + b).push(part) == a + b.push(part),
{
    assert((a + b).push(part) =~= a + b.push(part));
}

proof fn lemma_cut_apart(a: Seq<char>, c: char, b: Seq<char>)
    requires
        separates(c),
    ensures
        cut(a.push(c) + b) == (parts_of(a).push(Part::Separator(c)) + cut(b).0, cut(b).1),
    decreases b.len(),
{
    let all = a.push(c) + b;
    let done = parts_of(a).push(Part::Separator(c));
    if b.len() == 0 {
        assert(all =~= a.push(c));
        assert(all.drop_last() =~= a);
        assert(done + cut(b).0 =~= done);
    } else {
        lemma_cut_apart(a, c, b.drop_last());
        assert(all.drop_last() =~= a.push(c) + b.drop_last());
        assert(all.last() == b.last());
        let before = cut(b.drop_last());
        if separates(b.last()) {
            assert(with_token(done + before.0, before.1) =~= done + with_token(before.0, before.1));
            let sep = Part::Separator(b.last());
            assert(cut(all).0 == with_token(done + before.0, before.1).push(sep));
            assert(cut(b).0 == with_token(before.0, before.1).push(sep));
            lemma_push_right(done, with_token(before.0, before.1), sep);
        }
    }
}

/// What looks like a secret: a token of at least 12 bytes that begins with the
/// prefix of a known kind of key.
pub proof fn law_secret_like(token: Seq<char>)
    ensures
        secret_like(token) <==> encode_utf8(token).len() >= 12 && ("sk-"@.is_prefix_of(token) || "sk_live_"@.is_prefix_of(token) || "pk_live_"@.is_prefix_of(token) || "rk_live_"@.is_prefix_of(token) || "ghp_"@.is_prefix_of(token) || "gho_"@.is_prefix_of(token) || "ghs_"@.is_prefix_of(token) || "ghu_"@.is_prefix_of(token) || "github_pat_"@.is_prefix_of(token) || "glpat-"@.is_prefix_of(token) || "xoxb-"@.is_prefix_of(token) || "xoxp-"@.is_prefix_of(token) || "xoxa-"@.is_prefix_of(token) || "AKIA"@.is_prefix_of(token) || "ASIA"@.is_prefix_of(token) || "AIza"@.is_prefix_of(token) || "ya29."@.is_prefix_of(token) || "AGPA"@.is_prefix_of(token)),
{
    assert forall|s: Seq<char>, p: Seq<char>| #[trigger] begins(s, p) == p.is_prefix_of(s) by {
        law_occurrence(s, p, 0);
    }
    let d = secret_prefixes();
    assert(begins(token, d[0]@) == "sk-"@.is_prefix_of(token));
    assert(begins(token, d[1]@) == "sk_live_"@.is_prefix_of(token));
    assert(begins(token, d[2]@) == "pk_live_"@.is_prefix_of(token));
    assert(begins(token, d[3]@) == "rk_live_"@.is_prefix_of(token));
    assert(begins(token, d[4]@) == "ghp_"@.is_prefix_of(token));
    assert(begins(token, d[5]@) == "gho_"@.is_prefix_of(token));
    assert(begins(token, d[6]@) == "ghs_"@.is_prefix_of(token));
    assert(begins(token, d[7]@) == "ghu_"@.is_prefix_of(token));
    assert(begins(token, d[8]@) == "github_pat_"@.is_prefix_of(token));
    assert(begins(token, d[9]@) == "glpat-"@.is_prefix_of(token));
    assert(begins(token, d[10]@) == "xoxb-"@.is_prefix_of(token));
    assert(begins(token, d[11]@) == "xoxp-"@.is_prefix_of(token));
    assert(begins(token, d[12]@) == "xoxa-"@.is_prefix_of(token));
    assert(begins(token, d[13]@) == "AKIA"@.is_prefix_of(token));
    assert(begins(token, d[14]@) == "ASIA"@.is_prefix_of(token));
    assert(begins(token, d[15]@) == "AIza"@.is_prefix_of(token));
    assert(begins(token, d[16]@) == "ya29."@.is_prefix_of(token));
    assert(begins(token, d[17]@) == "AGPA"@.is_prefix_of(token));
}

/// What separates tokens: white space, quotes, brackets and the marks that stand
/// between names and values.
pub proof fn law_token_separators(c: char)
    ensures
        separates(c) <==> white(c) || c == '"' || c == '\'' || c == ',' || c == ':' || c == ';' || c
            == '=' || c == '(' || c == ')' || c == '{' || c == '}' || c == '[' || c == ']' || c
            == '<' || c == '>' || c == '&' || c == '?' || c == '/' || c == '\\' || c == '`' || c
            == '|',
{
}

/// What the model sees: of a secret the marker with the first twelve digits of its
/// hash, of everything else the text itself; and every secret is handed over.
pub proof fn law_masking(parts: Seq<Part>, token: Seq<char>, c: char)
    ensures
        parts_masked(Seq::empty()) == Seq::<char>::empty(),
        parts_secrets(Seq::empty()) == Seq::<Seq<char>>::empty(),
        parts_masked(parts.push(Part::Secret(token))) == parts_masked(parts) + ("<<cof-redacted:"@
            + content_key(encode_utf8(token)).take(12) + ">>"@),
        parts_masked(parts.push(Part::Plain(token))) == parts_masked(parts) + token,
        parts_masked(parts.push(Part::Separator(c))) == parts_masked(parts) + seq![c],
        parts_secrets(parts.push(Part::Secret(token))) == parts_secrets(parts).push(token),
        parts_secrets(parts.push(Part::Plain(token))) == parts_secrets(parts),
        parts_secrets(parts.push(Part::Separator(c))) == parts_secrets(parts),
{
    lemma_push_part(parts, Part::Secret(token));
    lemma_push_part(parts, Part::Plain(token));
    lemma_push_part(parts, Part::Separator(c));
}

/// Every secret is handed over with its own marker and hash.
pub proof fn law_secrets_handed_over(secrets: Seq<Secret>, i: int)
    requires
        secrets_marked(secrets),
        0 <= i < secrets.len(),
    ensures
        secret_values(secrets).len() == secrets.len(),
        secret_values(secrets)[i] == secrets[i].value@,
        secrets[i].hash@ == content_key(encode_utf8(secrets[i].value@)),
        secrets[i].marker@ == "<<cof-redacted:"@ + content_key(
            encode_utf8(secrets[i].value@),
        ).take(12) + ">>"@,
{
}

} // verus!
