//! How trimming, splitting, joining and numbers go together.

use vstd::prelude::*;

use crate::text;

verus! {

/// `c` does not occur in `s`.
pub open spec fn lacks(s: Seq<char>, c: char) -> bool {
    forall|k: int| 0 <= k < s.len() ==> #[trigger] s[k] != c
}

/// `s` is white space and nothing else.
pub open spec fn blank(s: Seq<char>) -> bool {
    forall|k: int| 0 <= k < s.len() ==> text::is_space(#[trigger] s[k])
}

/// `s` neither begins nor ends with white space.
pub open spec fn trimmed(s: Seq<char>) -> bool {
    s.len() > 0 ==> !text::is_space(s[0]) && !text::is_space(s.last())
}

pub proof fn lemma_trim_start(s: Seq<char>)
    ensures
        text::trim_start(s).len() <= s.len(),
        text::trim_start(s) == s.skip(s.len() - text::trim_start(s).len()),
        text::trim_start(s).len() > 0 ==> !text::is_space(text::trim_start(s)[0]),
        blank(s.take(s.len() - text::trim_start(s).len())),
    decreases s.len(),
{
    let t = text::trim_start(s);
    if s.len() > 0 && text::is_space(s[0]) {
        let rest = s.drop_first();
        lemma_trim_start(rest);
        let k = rest.len() - t.len();
        assert(rest.skip(k) =~= s.skip(k + 1));
        assert forall|j: int| 0 <= j < k + 1 implies text::is_space(
            #[trigger] s.take(k + 1)[j],
        ) by {
            if j > 0 {
                assert(rest.take(k)[j - 1] == s[j]);
            }
        }
    } else {
        assert(s.skip(0) =~= s);
    }
}

proof fn lemma_trim_end(s: Seq<char>)
    ensures
        text::trim_end(s).len() <= s.len(),
        text::trim_end(s) == s.take(text::trim_end(s).len() as int),
        text::trim_end(s).len() > 0 ==> !text::is_space(text::trim_end(s).last()),
    decreases s.len(),
{
    let t = text::trim_end(s);
    if s.len() > 0 && text::is_space(s.last()) {
        lemma_trim_end(s.drop_last());
        assert(s.drop_last().take(t.len() as int) =~= s.take(t.len() as int));
    } else {
        assert(s.take(s.len() as int) =~= s);
    }
}

/// What is left by trimming is a part of the text that neither begins nor ends
/// with white space.
pub proof fn law_trim(s: Seq<char>) -> (at: int)
    ensures
        0 <= at <= at + text::trim(s).len() <= s.len(),
        text::trim(s) == s.subrange(at, at + text::trim(s).len()),
        trimmed(text::trim(s)),
{
    let a = text::trim_start(s);
    let b = text::trim_end(a);
    lemma_trim_start(s);
    lemma_trim_end(a);
    let at = s.len() - a.len();
    assert(b =~= s.subrange(at, at + b.len()));
    if b.len() > 0 {
        assert(b[0] == a[0]);
    }
    at
}

/// Trimming brings in no character.
pub proof fn law_trim_lacks(s: Seq<char>, c: char)
    requires
        lacks(s, c),
    ensures
        lacks(text::trim(s), c),
{
    let at = law_trim(s);
    assert forall|k: int| 0 <= k < text::trim(s).len() implies #[trigger] text::trim(s)[k] != c by {
        assert(text::trim(s)[k] == s[at + k]);
    }
}

proof fn lemma_trim_start_blank(pre: Seq<char>, s: Seq<char>)
    requires
        blank(pre),
    ensures
        text::trim_start(pre + s) == text::trim_start(s),
    decreases pre.len(),
{
    if pre.len() > 0 {
        assert((pre + s).drop_first() =~= pre.drop_first() + s);
        assert((pre + s)[0] == pre[0]);
        assert forall|k: int| 0 <= k < pre.drop_first().len() implies text::is_space(
            #[trigger] pre.drop_first()[k],
        ) by {
            assert(text::is_space(pre[k + 1]));
        }
        lemma_trim_start_blank(pre.drop_first(), s);
    } else {
        assert(pre + s =~= s);
    }
}

proof fn lemma_trim_end_blank(s: Seq<char>, post: Seq<char>)
    requires
        blank(post),
    ensures
        text::trim_end(s + post) == text::trim_end(s),
    decreases post.len(),
{
    if post.len() > 0 {
        assert((s + post).drop_last() =~= s + post.drop_last());
        assert((s + post).last() == post.last());
        lemma_trim_end_blank(s, post.drop_last());
    } else {
        assert(s + post =~= s);
    }
}

/// Trimming takes away the white space around a trimmed text, and no more.
pub proof fn law_trim_padded(pre: Seq<char>, s: Seq<char>, post: Seq<char>)
    requires
        blank(pre),
        blank(post),
        trimmed(s),
    ensures
        text::trim(pre + s + post) == s,
{
    assert(pre + s + post =~= pre + (s + post));
    lemma_trim_start_blank(pre, s + post);
    if s.len() > 0 {
        assert((s + post)[0] == s[0]);
        lemma_trim_end_blank(s, post);
    } else {
        assert(s + post =~= post + Seq::empty());
        lemma_trim_start_blank(post, Seq::empty());
        assert(text::trim_start(Seq::<char>::empty()) =~= Seq::empty());
        assert(s =~= Seq::empty());
    }
}

/// A trimmed text stays as it is.
pub proof fn law_trim_twice(s: Seq<char>)
    requires
        trimmed(s),
    ensures
        text::trim(s) == s,
{
    law_trim_padded(Seq::empty(), s, Seq::empty());
    assert(Seq::empty() + s + Seq::empty() =~= s);
}

/// A text without separators at the end of another goes on with its last piece.
pub proof fn law_split_extend(a: Seq<char>, b: Seq<char>, sep: char)
    requires
        lacks(b, sep),
    ensures
        text::split(a + b, sep) == text::split(a, sep).drop_last().push(
            text::split(a, sep).last() + b,
        ),
    decreases b.len(),
{
    text::lemma_split_nonempty(a, sep);
    let p = text::split(a, sep);
    if b.len() == 0 {
        assert(a + b =~= a);
        assert(p.last() + b =~= p.last());
        assert(p.drop_last().push(p.last()) =~= p);
    } else {
        let c = b.drop_last();
        law_split_extend(a, c, sep);
        assert((a + b).drop_last() =~= a + c);
        assert((a + b).last() == b.last());
        assert(b[b.len() - 1] != sep);
        let q = text::split(a + c, sep);
        assert(q.drop_last() =~= p.drop_last());
        assert((p.last() + c).push(b.last()) =~= p.last() + b);
    }
}

/// A separator begins a new piece.
pub proof fn law_split_separator(a: Seq<char>, b: Seq<char>, sep: char)
    requires
        lacks(b, sep),
    ensures
        text::split(a.push(sep) + b, sep) == text::split(a, sep).push(b),
{
    let s = a.push(sep);
    assert(s.drop_last() =~= a);
    law_split_extend(s, b, sep);
    let p = text::split(s, sep);
    assert(p == text::split(a, sep).push(Seq::empty()));
    assert(p.drop_last() =~= text::split(a, sep));
    assert(p.last() + b =~= b);
}

/// A text without separators is one piece.
pub proof fn law_split_whole(s: Seq<char>, sep: char)
    requires
        lacks(s, sep),
    ensures
        text::split(s, sep) == seq![s],
{
    law_split_extend(Seq::empty(), s, sep);
    let p = text::split(Seq::<char>::empty(), sep);
    assert(Seq::<char>::empty() + s =~= s);
    assert(p.last() + s =~= s);
    assert(p.drop_last().push(s) =~= seq![s]);
}

/// No piece holds the separator, nor a character that the text does not hold.
pub proof fn law_split_lacks(s: Seq<char>, sep: char, c: char)
    requires
        c == sep || lacks(s, c),
    ensures
        forall|k: int|
            0 <= k < text::split(s, sep).len() ==> lacks(#[trigger] text::split(s, sep)[k], c),
    decreases s.len(),
{
    let p = text::split(s, sep);
    if s.len() > 0 {
        let t = s.drop_last();
        assert(c == sep || lacks(t, c));
        law_split_lacks(t, sep, c);
        text::lemma_split_nonempty(t, sep);
        let q = text::split(t, sep);
        assert forall|k: int| 0 <= k < p.len() implies lacks(#[trigger] p[k], c) by {
            if s.last() == sep {
                if k < q.len() {
                    assert(p[k] == q[k]);
                }
            } else {
                if k < q.len() - 1 {
                    assert(p[k] == q[k]);
                } else {
                    assert(lacks(q[q.len() - 1], c));
                    assert(p[k] == q.last().push(s.last()));
                    assert(s[s.len() - 1] != c);
                }
            }
        }
    } else {
        assert(p =~= seq![Seq::<char>::empty()]);
    }
}

/// The lines of a text made of lines are those lines, trimmed.
pub proof fn law_lines(lines: Seq<Seq<char>>)
    requires
        forall|k: int| 0 <= k < lines.len() ==> lacks(#[trigger] lines[k], '\n'),
    ensures
        text::lines(text::unlines(lines)) == lines.map_values(|l: Seq<char>| text::trim(l)),
{
    lemma_unlines_split(lines);
    let pieces = text::split(text::unlines(lines), '\n');
    assert(pieces.drop_last() =~= lines);
}

proof fn lemma_unlines_split(lines: Seq<Seq<char>>)
    requires
        forall|k: int| 0 <= k < lines.len() ==> lacks(#[trigger] lines[k], '\n'),
    ensures
        text::split(text::unlines(lines), '\n') == lines.push(Seq::empty()),
    decreases lines.len(),
{
    if lines.len() == 0 {
        assert(seq![Seq::<char>::empty()] =~= lines.push(Seq::empty()));
    } else {
        let rest = lines.drop_last();
        let last = lines.last();
        assert(lacks(lines[lines.len() - 1], '\n'));
        assert forall|k: int| 0 <= k < rest.len() implies lacks(#[trigger] rest[k], '\n') by {
            assert(lacks(lines[k], '\n'));
        }
        lemma_unlines_split(rest);
        let a = text::unlines(rest);
        law_split_extend(a, last, '\n');
        let s = a + last;
        assert(a + last.push('\n') =~= s.push('\n'));
        assert(s.push('\n').drop_last() =~= s);
        let p = rest.push(Seq::<char>::empty());
        assert(p.drop_last() =~= rest);
        assert(p.last() + last =~= last);
        assert(rest.push(last) =~= lines);
    }
}

/// An item of a list as the config writes it.
pub open spec fn is_item(s: Seq<char>) -> bool {
    s.len() > 0 && trimmed(s) && lacks(s, ',') && lacks(s, '\n')
}

/// The items of a list are such items.
pub proof fn law_list_items(s: Seq<char>)
    requires
        lacks(s, '\n'),
    ensures
        forall|k: int|
            0 <= k < text::list_items(s).len() ==> is_item(#[trigger] text::list_items(s)[k]),
{
    law_split_lacks(s, ',', ',');
    law_split_lacks(s, ',', '\n');
    lemma_clean(text::split(s, ','));
}

proof fn lemma_clean(pieces: Seq<Seq<char>>)
    requires
        forall|k: int| 0 <= k < pieces.len() ==> lacks(#[trigger] pieces[k], ','),
        forall|k: int| 0 <= k < pieces.len() ==> lacks(#[trigger] pieces[k], '\n'),
    ensures
        forall|k: int|
            0 <= k < text::clean(pieces).len() ==> is_item(#[trigger] text::clean(pieces)[k]),
    decreases pieces.len(),
{
    if pieces.len() > 0 {
        let rest = pieces.drop_last();
        assert forall|k: int| 0 <= k < rest.len() implies lacks(#[trigger] rest[k], ',') && lacks(
            rest[k],
            '\n',
        ) by {
            assert(lacks(pieces[k], ','));
            assert(lacks(pieces[k], '\n'));
        }
        lemma_clean(rest);
        let piece = pieces[pieces.len() - 1];
        let at = law_trim(piece);
        law_trim_lacks(piece, ',');
        law_trim_lacks(piece, '\n');
        let all = text::clean(pieces);
        assert forall|k: int| 0 <= k < all.len() implies is_item(#[trigger] all[k]) by {
            if k < text::clean(rest).len() {
                assert(all[k] == text::clean(rest)[k]);
            } else {
                assert(all[k] == text::trim(piece));
            }
        }
    }
}

/// All of `items` are items of a list.
pub open spec fn are_items(items: Seq<Seq<char>>) -> bool {
    forall|k: int| 0 <= k < items.len() ==> is_item(#[trigger] items[k])
}

/// A list that was written with commas is read back.
pub proof fn law_list_round_trip(items: Seq<Seq<char>>)
    requires
        are_items(items),
        items.len() > 0,
    ensures
        text::list_items(text::join(items, ", "@)) == items,
    decreases items.len(),
{
    reveal_strlit(", ");
    let last = items.last();
    let rest = items.drop_last();
    assert(is_item(items[items.len() - 1]));
    if items.len() == 1 {
        law_split_whole(last, ',');
        law_trim_twice(last);
        let p = seq![last];
        assert(p.drop_last() =~= Seq::empty());
        assert(text::clean(p.drop_last()) =~= Seq::empty());
        assert(text::clean(p) =~= items);
    } else {
        assert forall|k: int| 0 <= k < rest.len() implies is_item(#[trigger] rest[k]) by {
            assert(is_item(items[k]));
        }
        law_list_round_trip(rest);
        let a = text::join(rest, ", "@);
        let b = seq![' '] + last;
        assert(a + ", "@ + last =~= a.push(',') + b);
        assert(lacks(b, ','));
        law_split_separator(a, b, ',');
        law_trim_padded(seq![' '], last, Seq::empty());
        assert(seq![' '] + last + Seq::empty() =~= b);
        let p = text::split(a, ',').push(b);
        assert(p.drop_last() =~= text::split(a, ','));
        assert(text::clean(p) =~= rest.push(last));
        assert(rest.push(last) =~= items);
    }
}

/// A joined list begins and ends like its first and last items, and holds no line
/// feed.
pub proof fn law_join(items: Seq<Seq<char>>)
    requires
        are_items(items),
        items.len() > 0,
    ensures
        text::join(items, ", "@).len() > 0,
        trimmed(text::join(items, ", "@)),
        lacks(text::join(items, ", "@), '\n'),
    decreases items.len(),
{
    reveal_strlit(", ");
    assert(is_item(items[items.len() - 1]));
    if items.len() > 1 {
        let rest = items.drop_last();
        assert forall|k: int| 0 <= k < rest.len() implies is_item(#[trigger] rest[k]) by {
            assert(is_item(items[k]));
        }
        law_join(rest);
        let a = text::join(rest, ", "@);
        let s = text::join(items, ", "@);
        assert(s[0] == a[0]);
        assert(s.last() == items.last().last());
        assert forall|k: int| 0 <= k < s.len() implies #[trigger] s[k] != '\n' by {
            if k < a.len() {
                assert(s[k] == a[k]);
            } else if k < a.len() + 2 {
                assert(s[k] == ", "@[k - a.len()]);
            } else {
                assert(s[k] == items.last()[k - a.len() - 2]);
            }
        }
    }
}

/// The decimal digits of a number are digits, and write that number.
pub proof fn law_decimal(n: nat)
    ensures
        text::decimal(n).len() > 0,
        text::all_digits(text::decimal(n)),
        text::digits_value(text::decimal(n)) == n,
    decreases n,
{
    let d = n % 10;
    let c = text::digit(d);
    assert(c as u32 == 0x30 + d);
    if n < 10 {
        let s = text::decimal(n);
        assert(s.drop_last() =~= Seq::empty());
        assert(text::digits_value(s.drop_last()) == 0);
    } else {
        law_decimal(n / 10);
        assert(text::decimal(n).drop_last() =~= text::decimal(n / 10));
    }
}

/// A number that was written in decimal is read back.
pub proof fn law_number_round_trip(n: nat, max: nat)
    requires
        n <= max,
    ensures
        text::parse_number(text::decimal(n), max) == Some(n),
        trimmed(text::decimal(n)),
        lacks(text::decimal(n), '\n'),
{
    law_decimal(n);
    let s = text::decimal(n);
    assert(text::is_digit(s[0]));
    assert(text::is_digit(s[s.len() - 1]));
    assert(s[0] != '+');
    assert forall|k: int| 0 <= k < s.len() implies #[trigger] s[k] != '\n' by {
        assert(text::is_digit(s[k]));
    }
}

/// What follows a prefix is what was put behind it.
pub proof fn law_prefix(prefix: Seq<char>, rest: Seq<char>)
    ensures
        text::strip_prefix(prefix + rest, prefix) == Some(rest),
{
    assert((prefix + rest).skip(prefix.len() as int) =~= rest);
    assert((prefix + rest).subrange(0, prefix.len() as int) =~= prefix);
}

/// A text that begins otherwise does not begin with the prefix.
pub proof fn law_other_prefix(s: Seq<char>, prefix: Seq<char>, k: int)
    requires
        0 <= k < prefix.len(),
        s.len() <= k || s[k] != prefix[k],
    ensures
        text::strip_prefix(s, prefix) is None,
{
    if prefix.is_prefix_of(s) {
        assert(s.subrange(0, prefix.len() as int)[k] == s[k]);
    }
}

/// Joining two lists joins what each of them gives; one part alone is itself.
pub proof fn law_join_parts(a: Seq<Seq<char>>, b: Seq<Seq<char>>, sep: Seq<char>, s: Seq<char>)
    ensures
        text::join(Seq::empty(), sep) == Seq::<char>::empty(),
        text::join(seq![s], sep) == s,
        a.len() > 0 && b.len() > 0 ==> text::join(a + b, sep) == text::join(a, sep) + sep
            + text::join(b, sep),
    decreases b.len(),
{
    assert(seq![s][0] == s);
    if a.len() > 0 && b.len() > 0 {
        let all = a + b;
        assert(all.last() == b.last());
        if b.len() == 1 {
            assert(all.drop_last() =~= a);
            assert(b[0] == b.last());
        } else {
            law_join_parts(a, b.drop_last(), sep, s);
            assert(all.drop_last() =~= a + b.drop_last());
            assert(text::join(all, sep) =~= text::join(a, sep) + sep + text::join(b, sep));
        }
    }
}

/// Joined again with the separator, the pieces of a text are that text. None of them
/// holds the separator.
pub proof fn law_split_joined(s: Seq<char>, sep: char)
    ensures
        text::split(s, sep).len() > 0,
        text::join(text::split(s, sep), seq![sep]) == s,
        forall|k: int|
            0 <= k < text::split(s, sep).len() ==> lacks(#[trigger] text::split(s, sep)[k], sep),
    decreases s.len(),
{
    law_split_lacks(s, sep, sep);
    text::lemma_split_nonempty(s, sep);
    let all = text::split(s, sep);
    let one = seq![sep];
    if s.len() == 0 {
        law_join_parts(all, all, one, Seq::empty());
        assert(all =~= seq![Seq::<char>::empty()]);
    } else {
        let rest = s.drop_last();
        let before = text::split(rest, sep);
        law_split_joined(rest, sep);
        if s.last() == sep {
            law_join_parts(before, seq![Seq::<char>::empty()], one, Seq::empty());
            assert(all =~= before + seq![Seq::<char>::empty()]);
            assert(s =~= rest.push(sep));
            assert(text::join(all, one) =~= s);
        } else {
            let front = before.drop_last();
            let last = before.last();
            let more = last.push(s.last());
            law_join_parts(front, seq![last], one, last);
            law_join_parts(front, seq![more], one, more);
            assert(before =~= front + seq![last]);
            assert(all =~= front + seq![more]);
            if front.len() == 0 {
                assert(all =~= seq![more]);
                assert(before =~= seq![last]);
            }
            assert(s =~= rest.push(s.last()));
            assert(text::join(all, one) =~= s);
        }
    }
}

/// Parts that hold no separator, joined with it, are split into those parts again.
pub proof fn law_joined_is_split(parts: Seq<Seq<char>>, sep: char)
    requires
        parts.len() > 0,
        forall|k: int| 0 <= k < parts.len() ==> lacks(#[trigger] parts[k], sep),
    ensures
        text::split(text::join(parts, seq![sep]), sep) == parts,
    decreases parts.len(),
{
    if parts.len() == 1 {
        law_split_whole(parts[0], sep);
        assert(parts =~= seq![parts[0]]);
    } else {
        let rest = parts.drop_last();
        assert forall|k: int| 0 <= k < rest.len() implies lacks(#[trigger] rest[k], sep) by {
            assert(lacks(parts[k], sep));
        }
        law_joined_is_split(rest, sep);
        let a = text::join(rest, seq![sep]);
        assert(lacks(parts[parts.len() - 1], sep));
        law_split_separator(a, parts.last(), sep);
        assert(text::join(parts, seq![sep]) =~= a.push(sep) + parts.last());
        assert(rest.push(parts.last()) =~= parts);
    }
}

/// The items of a list are its pieces between commas, in order, without the white space
/// around them and less the empty ones.
pub proof fn law_list_is_filtered(s: Seq<char>)
    ensures
        text::list_items(s) == text::split(s, ',').map_values(
            |p: Seq<char>| text::trim(p),
        ).filter(|p: Seq<char>| p.len() > 0),
{
    lemma_clean_filters(text::split(s, ','));
}

proof fn lemma_clean_filters(pieces: Seq<Seq<char>>)
    ensures
        text::clean(pieces) == pieces.map_values(|p: Seq<char>| text::trim(p)).filter(
            |p: Seq<char>| p.len() > 0,
        ),
    decreases pieces.len(),
{
    reveal(Seq::filter);
    let trimmed_all = pieces.map_values(|p: Seq<char>| text::trim(p));
    if pieces.len() > 0 {
        lemma_clean_filters(pieces.drop_last());
        assert(trimmed_all.drop_last() =~= pieces.drop_last().map_values(
            |p: Seq<char>| text::trim(p),
        ));
    } else {
        assert(trimmed_all =~= Seq::empty());
    }
}

/// The place that is found is the first at which the character stands.
pub proof fn law_find(s: Seq<char>, c: char)
    ensures
        0 <= text::find(s, c) <= s.len(),
        text::find(s, c) < s.len() ==> s[text::find(s, c)] == c,
        forall|k: int| 0 <= k < text::find(s, c) ==> #[trigger] s[k] != c,
    decreases s.len(),
{
    if s.len() > 0 && s[0] != c {
        let rest = s.drop_first();
        law_find(rest, c);
        assert forall|k: int| 0 <= k < text::find(s, c) implies #[trigger] s[k] != c by {
            if k > 0 {
                assert(rest[k - 1] == s[k]);
            }
        }
    }
}

/// One of the digits from zero to nine.
pub open spec fn one_of_ten(c: char) -> bool {
    0x30 <= c as u32 <= 0x39
}

/// One digit at least, and nothing but digits.
pub open spec fn only_digits(s: Seq<char>) -> bool {
    s.len() > 0 && forall|k: int| 0 <= k < s.len() ==> one_of_ten(#[trigger] s[k])
}

/// The text without a plus sign at its beginning.
pub open spec fn unsigned(s: Seq<char>) -> Seq<char> {
    if s.len() > 0 && s[0] == '+' {
        s.skip(1)
    } else {
        s
    }
}

/// A number is read from decimal digits, a plus sign before them allowed, and from
/// nothing else, as long as it is no more than the largest one allowed.
pub proof fn law_number(s: Seq<char>, max: nat)
    ensures
        text::parse_number(s, max) is Some <==> only_digits(unsigned(s)) && text::digits_value(
            unsigned(s),
        ) <= max,
        text::parse_number(s, max) matches Some(n) ==> n == text::digits_value(unsigned(s)),
{
    let body = unsigned(s);
    if text::all_digits(body) {
        assert forall|k: int| 0 <= k < body.len() implies one_of_ten(#[trigger] body[k]) by {
            assert(text::is_digit(body[k]));
        }
    }
    if only_digits(body) {
        assert forall|j: int| 0 <= j < body.len() implies text::is_digit(#[trigger] body[j]) by {
            assert(one_of_ten(body[j]));
        }
    }
}

/// Each digit counts ten times as much as the one behind it.
pub proof fn law_digits(s: Seq<char>, c: char)
    requires
        0x30 <= c as u32 <= 0x39,
    ensures
        text::digits_value(Seq::empty()) == 0,
        text::digits_value(s.push(c)) == 10 * text::digits_value(s) + (c as u32 - 0x30),
{
    assert(s.push(c).drop_last() =~= s);
}

/// A number is written without zeros before it.
pub proof fn law_decimal_short(n: nat)
    ensures
        n == 0 ==> text::decimal(n) == seq!['0'],
        n > 0 ==> text::decimal(n)[0] != '0',
    decreases n,
{
    if n < 10 {
        assert(text::decimal(n) =~= seq![text::digit(n)]);
    } else {
        law_decimal_short(n / 10);
        law_decimal(n / 10);
        assert(text::decimal(n)[0] == text::decimal(n / 10)[0]);
    }
}

/// Lines one after the other are written one after the other, each with a line feed.
pub proof fn law_unlines(a: Seq<Seq<char>>, b: Seq<Seq<char>>, line: Seq<char>)
    ensures
        text::unlines(Seq::empty()) == Seq::<char>::empty(),
        text::unlines(seq![line]) == line + seq!['\n'],
        text::unlines(a + b) == text::unlines(a) + text::unlines(b),
    decreases b.len(),
{
    assert(seq![line].drop_last() =~= Seq::empty());
    assert(seq![line].last() == line);
    assert(text::unlines(seq![line].drop_last()) =~= Seq::empty());
    assert(text::unlines(seq![line]) =~= line + seq!['\n']);
    if b.len() == 0 {
        assert(a + b =~= a);
        assert(text::unlines(a + b) =~= text::unlines(a) + text::unlines(b));
    } else {
        law_unlines(a, b.drop_last(), line);
        assert((a + b).drop_last() =~= a + b.drop_last());
        assert(text::unlines(a + b) =~= text::unlines(a) + text::unlines(b));
    }
}

/// A last line without a line feed counts as a line, unless it is empty.
pub proof fn law_last_line(lines: Seq<Seq<char>>, last: Seq<char>)
    requires
        forall|k: int| 0 <= k < lines.len() ==> lacks(#[trigger] lines[k], '\n'),
        lacks(last, '\n'),
        last.len() > 0,
    ensures
        text::lines(text::unlines(lines) + last) == lines.push(last).map_values(
            |l: Seq<char>| text::trim(l),
        ),
{
    lemma_split_lines(lines, last);
    assert(text::raw_lines(text::unlines(lines) + last) =~= lines.push(last));
}

proof fn lemma_split_lines(lines: Seq<Seq<char>>, last: Seq<char>)
    requires
        forall|k: int| 0 <= k < lines.len() ==> lacks(#[trigger] lines[k], '\n'),
        lacks(last, '\n'),
    ensures
        text::split(text::unlines(lines) + last, '\n') == lines.push(last),
    decreases lines.len(),
{
    if lines.len() == 0 {
        assert(text::unlines(lines) + last =~= last);
        law_split_whole(last, '\n');
        assert(lines.push(last) =~= seq![last]);
    } else {
        let rest = lines.drop_last();
        assert forall|k: int| 0 <= k < rest.len() implies lacks(#[trigger] rest[k], '\n') by {
            assert(lacks(lines[k], '\n'));
        }
        assert(lacks(lines[lines.len() - 1], '\n'));
        lemma_split_lines(rest, lines.last());
        let a = text::unlines(rest) + lines.last();
        law_split_separator(a, last, '\n');
        assert(text::unlines(lines) + last =~= a.push('\n') + last);
        assert(rest.push(lines.last()) =~= lines);
    }
}

/// White space is what Unicode calls so.
pub proof fn law_white_space(c: char)
    ensures
        text::is_space(c) <==> seq![
            0x9u32,
            0xa,
            0xb,
            0xc,
            0xd,
            0x20,
            0x85,
            0xa0,
            0x1680,
            0x2000,
            0x2001,
            0x2002,
            0x2003,
            0x2004,
            0x2005,
            0x2006,
            0x2007,
            0x2008,
            0x2009,
            0x200a,
            0x2028,
            0x2029,
            0x202f,
            0x205f,
            0x3000,
        ].contains(c as u32),
{
    let all = seq![
        0x9u32,
        0xa,
        0xb,
        0xc,
        0xd,
        0x20,
        0x85,
        0xa0,
        0x1680,
        0x2000,
        0x2001,
        0x2002,
        0x2003,
        0x2004,
        0x2005,
        0x2006,
        0x2007,
        0x2008,
        0x2009,
        0x200a,
        0x2028,
        0x2029,
        0x202f,
        0x205f,
        0x3000,
    ];
    assert(all.len() == 25);
    assert(all[0] == 0x9 && all[1] == 0xa && all[2] == 0xb && all[3] == 0xc && all[4] == 0xd && all[5]
        == 0x20 && all[6] == 0x85 && all[7] == 0xa0 && all[8] == 0x1680);
    assert(all[9] == 0x2000 && all[10] == 0x2001 && all[11] == 0x2002 && all[12] == 0x2003 && all[13]
        == 0x2004 && all[14] == 0x2005 && all[15] == 0x2006 && all[16] == 0x2007);
    assert(all[17] == 0x2008 && all[18] == 0x2009 && all[19] == 0x200a && all[20] == 0x2028 && all[21]
        == 0x2029 && all[22] == 0x202f && all[23] == 0x205f && all[24] == 0x3000);
}

/// Control characters are the first thirty-two, the one behind the tilde, and the thirty-two
/// that follow it.
pub proof fn law_control(c: char)
    ensures
        text::is_ctrl(c) <==> 32 > c as u32 || c as u32 == 127 || (c as u32 >= 128 && 160 > c as u32),
{
}

} // verus!
