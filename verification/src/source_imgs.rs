//! Finds the source frames among the files of an input tree: reads animation,
//! direction and frame number out of each file name, groups the frames by
//! animation and puts each group in order.

use vstd::prelude::*;
use vstd::std_specs::iter::IteratorSpec;
use crate::raster::Image;
use crate::sorted_map::{group_by_key, keys_seen, lemma_values_are_items, values_of, SortedMap};

verus! {

/// A source frame: what the name of its file says, and where the file is.
#[derive(Debug, Clone, Eq, PartialEq, PartialOrd, Ord)]
pub struct ImgToRender {
    pub animation: String,
    pub direction: u32,
    pub frame: u32,
    pub path: String,
}

/// The ending that the name of a frame file has.
pub open spec fn extension() -> Seq<char> {
    seq!['.', 'p', 'n', 'g']
}

/// What stands between animation, direction and frame in a file name.
pub open spec fn separator() -> Seq<char> {
    seq!['_', 'E', 'S', 'C', 'A', 'P', 'E', 'D']
}

/// `pattern` stands in `text` from index `at` on.
pub open spec fn occurs_at(text: Seq<char>, pattern: Seq<char>, at: int) -> bool {
    0 <= at && at + pattern.len() <= text.len() && text.subrange(at, at + pattern.len()) == pattern
}

/// The separator occurs in `stem` exactly twice: at `first` and at `second`.
pub open spec fn splits_at(stem: Seq<char>, first: int, second: int) -> bool {
    &&& first < second
    &&& occurs_at(stem, separator(), first)
    &&& occurs_at(stem, separator(), second)
    &&& forall|k: int| #[trigger] occurs_at(stem, separator(), k) ==> k == first || k == second
}

/// `c` is one of the digits `0` to `9`.
pub open spec fn is_digit(c: char) -> bool {
    48 <= c as u32 <= 57
}

/// The number that a sequence of digits writes in base ten.
pub open spec fn decimal(digits: Seq<char>) -> int
    decreases digits.len(),
{
    if digits.len() == 0 {
        0
    } else {
        10 * decimal(digits.drop_last()) + (digits.last() as u32 - 48)
    }
}

/// The digits of a token: the token itself, without the plus sign it may
/// start with.
pub open spec fn digits_of(token: Seq<char>) -> Seq<char> {
    if token.len() > 0 && token[0] == '+' {
        token.drop_first()
    } else {
        token
    }
}

/// The number that `token` writes: one or more digits, with or without a plus
/// sign before them, whose value fits `u32`. Any other token writes none.
pub open spec fn number(token: Seq<char>) -> Option<u32> {
    let digits = digits_of(token);
    if digits.len() > 0 && (forall|i: int| 0 <= i < digits.len() ==> is_digit(#[trigger] digits[i]))
        && decimal(digits) <= u32::MAX {
        Some(decimal(digits) as u32)
    } else {
        None
    }
}

/// What a file name says: the name must end in `.png`, and what stands before
/// that ending must consist of three tokens with a separator between each
/// two, of which the second and the third write numbers. The first token is
/// the animation, taken as it is; the numbers are direction and frame.
pub open spec fn parse_name(name: Seq<char>) -> Option<(Seq<char>, u32, u32)> {
    let stem = name.take(name.len() - 4);
    if name.len() >= 4 && name.skip(name.len() - 4) == extension() && exists|i: int, j: int|
        splits_at(stem, i, j) {
        let (i, j) = choose|i: int, j: int| splits_at(stem, i, j);
        match (number(stem.subrange(i + 8, j)), number(stem.skip(j + 8))) {
            (Some(direction), Some(frame)) => Some((stem.take(i), direction, frame)),
            _ => None,
        }
    } else {
        None
    }
}

/// Two occurrences of the separator never overlap.
pub proof fn lemma_separators_apart(text: Seq<char>, i: int, j: int)
    requires
        occurs_at(text, separator(), i),
        occurs_at(text, separator(), j),
        i < j,
    ensures
        i + 8 <= j,
{
    if j < i + 8 {
        assert(text.subrange(j, j + 8)[0] == '_');
        assert(text.subrange(i, i + 8)[j - i] == text[j]);
    }
}

/// A stem is split by at most one pair of separators.
pub proof fn lemma_split_unique(stem: Seq<char>, i: int, j: int, m: int, n: int)
    requires
        splits_at(stem, i, j),
        splits_at(stem, m, n),
    ensures
        i == m,
        j == n,
{
}

/// Adding digits never lowers the number written so far.
pub proof fn lemma_decimal_grows(digits: Seq<char>, k: int)
    requires
        0 <= k <= digits.len(),
        forall|i: int| 0 <= i < digits.len() ==> is_digit(#[trigger] digits[i]),
    ensures
        0 <= decimal(digits.take(k)) <= decimal(digits),
    decreases digits.len() - k,
{
    if k == digits.len() {
        assert(digits.take(k) == digits);
        lemma_decimal_nonnegative(digits);
    } else {
        lemma_decimal_grows(digits, k + 1);
        assert(digits.take(k + 1).drop_last() == digits.take(k));
        assert(is_digit(digits[k]));
        lemma_decimal_nonnegative(digits.take(k));
    }
}

/// Digits write a number that is not negative.
pub proof fn lemma_decimal_nonnegative(digits: Seq<char>)
    requires
        forall|i: int| 0 <= i < digits.len() ==> is_digit(#[trigger] digits[i]),
    ensures
        0 <= decimal(digits),
    decreases digits.len(),
{
    if digits.len() > 0 {
        assert(is_digit(digits[digits.len() - 1]));
        assert forall|i: int| 0 <= i < digits.drop_last().len() implies is_digit(
            #[trigger] digits.drop_last()[i],
        ) by {
            assert(is_digit(digits[i]));
        }
        lemma_decimal_nonnegative(digits.drop_last());
    }
}

/// The characters of a string.
fn chars_of(text: &str) -> (chars: Vec<char>)
    ensures
        chars@ == text@,
{
    let mut chars: Vec<char> = Vec::new();
    for c in it: text.chars()
        invariant
            it.seq() == text@,
            chars@ == it.seq().take(it.index()),
    {
        chars.push(c);
        assert(it.seq().take(it.index() + 1) == it.seq().take(it.index()).push(c));
    }
    chars
}

/// Tells whether the separator stands at index `at` of the first `end`
/// characters.
fn separator_at(chars: &Vec<char>, end: usize, at: usize) -> (found: bool)
    requires
        at <= end <= chars.len(),
    ensures
        found == occurs_at(chars@.take(end as int), separator(), at as int),
{
    if end - at < 8 {
        return false;
    }
    let found = chars[at] == '_' && chars[at + 1] == 'E' && chars[at + 2] == 'S' && chars[at + 3] == 'C'
        && chars[at + 4] == 'A' && chars[at + 5] == 'P' && chars[at + 6] == 'E' && chars[at + 7] == 'D';
    proof {
        let part = chars@.take(end as int).subrange(at as int, at + 8);
        if found {
            assert(part =~= separator());
        } else {
            assert(part[0] == chars[at as int]);
            assert(part[1] == chars[at + 1]);
            assert(part[2] == chars[at + 2]);
            assert(part[3] == chars[at + 3]);
            assert(part[4] == chars[at + 4]);
            assert(part[5] == chars[at + 5]);
            assert(part[6] == chars[at + 6]);
            assert(part[7] == chars[at + 7]);
        }
    }
    found
}

/// Index of the first separator that starts at `from` or later among the
/// first `end` characters.
fn find_separator(chars: &Vec<char>, end: usize, from: usize) -> (at: Option<usize>)
    requires
        from <= end <= chars.len(),
    ensures
        at matches Some(i) ==> from <= i && i + 8 <= end && occurs_at(
            chars@.take(end as int),
            separator(),
            i as int,
        ),
        forall|k: int|
            from <= k && (at matches Some(i) ==> k < i) ==> !#[trigger] occurs_at(
                chars@.take(end as int),
                separator(),
                k,
            ),
{
    let mut at: usize = from;
    while at < end
        invariant
            from <= at <= end <= chars.len(),
            forall|k: int| from <= k < at ==> !#[trigger] occurs_at(chars@.take(end as int), separator(), k),
        decreases end - at,
    {
        if separator_at(chars, end, at) {
            return Some(at);
        }
        at += 1;
    }
    None
}

/// Reads the number that the characters from `from` up to `to` write.
fn parse_number(chars: &Vec<char>, from: usize, to: usize) -> (value: Option<u32>)
    requires
        from <= to <= chars.len(),
    ensures
        value == number(chars@.subrange(from as int, to as int)),
{
    let ghost token = chars@.subrange(from as int, to as int);
    let start: usize = if from < to && chars[from] == '+' {
        from + 1
    } else {
        from
    };
    let ghost digits = chars@.subrange(start as int, to as int);
    proof {
        assert(digits =~= digits_of(token));
    }
    if start == to {
        return None;
    }
    let mut value: u64 = 0;
    let mut at: usize = start;
    proof {
        assert(digits.take(0) =~= Seq::<char>::empty());
    }
    while at < to
        invariant
            from <= start <= at <= to <= chars.len(),
            digits == chars@.subrange(start as int, to as int),
            digits == digits_of(chars@.subrange(from as int, to as int)),
            forall|i: int| 0 <= i < at - start ==> is_digit(#[trigger] digits[i]),
            value == decimal(digits.take(at - start)),
            value <= u32::MAX,
        decreases to - at,
    {
        let c = chars[at];
        let code = c as u32;
        if code < 48 || code > 57 {
            proof {
                assert(!is_digit(digits[at - start]));
            }
            return None;
        }
        proof {
            assert(digits.take(at - start + 1).drop_last() =~= digits.take(at - start));
            assert(digits.take(at - start + 1).last() == c);
        }
        value = 10 * value + (code - 48) as u64;
        if value > u32::MAX as u64 {
            proof {
                if forall|i: int| 0 <= i < digits.len() ==> is_digit(#[trigger] digits[i]) {
                    lemma_decimal_grows(digits, at - start + 1);
                }
            }
            return None;
        }
        at += 1;
    }
    proof {
        assert(digits.take(at - start) =~= digits);
    }
    Some(value as u32)
}

impl ImgToRender {
    /// Reads a source frame out of the name of its file, or finds that the
    /// name is not that of a frame.
    pub fn new(file_name: &str, path: &str) -> (r: Option<Self>)
        ensures
            match parse_name(file_name@) {
                Some((animation, direction, frame)) => r matches Some(img) && img.animation@ == animation
                    && img.direction == direction && img.frame == frame && img.path@ == path@,
                None => r is None,
            },
    {
        let chars = chars_of(file_name);
        let n = chars.len();
        if n < 4 {
            return None;
        }
        let end = n - 4;
        let ghost stem = chars@.take(end as int);
        if !(chars[end] == '.' && chars[end + 1] == 'p' && chars[end + 2] == 'n' && chars[end + 3] == 'g') {
            proof {
                let tail = chars@.skip(end as int);
                assert(tail[0] == chars[end as int]);
                assert(tail[1] == chars[end + 1]);
                assert(tail[2] == chars[end + 2]);
                assert(tail[3] == chars[end + 3]);
            }
            return None;
        }
        proof {
            assert(chars@.skip(end as int) =~= extension());
        }
        let first = match find_separator(&chars, end, 0) {
            Some(i) => i,
            None => {
                return None;
            },
        };
        let second = match find_separator(&chars, end, first + 8) {
            Some(j) => j,
            None => {
                proof {
                    assert forall|i: int, j: int| !splits_at(stem, i, j) by {
                        if splits_at(stem, i, j) {
                            lemma_separators_apart(stem, i, j);
                            if i < first {
                            } else if i > first {
                                lemma_separators_apart(stem, first as int, i);
                            } else {
                                lemma_separators_apart(stem, first as int, j);
                            }
                        }
                    }
                }
                return None;
            },
        };
        match find_separator(&chars, end, second + 8) {
            Some(third) => {
                proof {
                    assert forall|i: int, j: int| !splits_at(stem, i, j) by {
                        if splits_at(stem, i, j) {
                            assert(occurs_at(stem, separator(), first as int));
                            assert(occurs_at(stem, separator(), second as int));
                            assert(occurs_at(stem, separator(), third as int));
                        }
                    }
                }
                return None;
            },
            None => {},
        }
        proof {
            assert forall|k: int| #[trigger] occurs_at(stem, separator(), k) implies k == first || k
                == second by {
                if first < k && k < first + 8 {
                    lemma_separators_apart(stem, first as int, k);
                }
                if second < k && k < second + 8 {
                    lemma_separators_apart(stem, second as int, k);
                }
            }
            assert(splits_at(stem, first as int, second as int));
            let (i, j) = choose|i: int, j: int| splits_at(stem, i, j);
            lemma_split_unique(stem, i, j, first as int, second as int);
            assert(stem.subrange(first + 8, second as int) =~= chars@.subrange(first + 8, second as int));
            assert(stem.skip(second + 8) =~= chars@.subrange(second + 8, end as int));
            assert(stem.take(first as int) =~= file_name@.subrange(0, first as int));
        }
        let direction = match parse_number(&chars, first + 8, second) {
            Some(d) => d,
            None => {
                return None;
            },
        };
        let frame = match parse_number(&chars, second + 8, end) {
            Some(f) => f,
            None => {
                return None;
            },
        };
        let animation = String::from_str(file_name.substring_char(0, first));
        let path = String::from_str(path);

        Some(Self { animation, direction, frame, path })
    }
}

/// Where one thing stands relative to another in an order.
#[derive(Clone, Copy, Debug, PartialEq, Eq, Structural)]
pub enum Rank {
    Before,
    Same,
    After,
}

/// Where text `a` stands relative to text `b`: texts are compared character
/// by character by their code points, and a text stands before every longer
/// text that starts with it.
pub open spec fn text_rank(a: Seq<char>, b: Seq<char>) -> Rank
    decreases a.len(),
{
    if a.len() == 0 && b.len() == 0 {
        Rank::Same
    } else if a.len() == 0 {
        Rank::Before
    } else if b.len() == 0 {
        Rank::After
    } else if a[0] < b[0] {
        Rank::Before
    } else if a[0] > b[0] {
        Rank::After
    } else {
        text_rank(a.drop_first(), b.drop_first())
    }
}

/// Where number `a` stands relative to number `b`.
pub open spec fn number_rank(a: u32, b: u32) -> Rank {
    if a < b {
        Rank::Before
    } else if a > b {
        Rank::After
    } else {
        Rank::Same
    }
}

/// The first rank, unless it is `Same`: then the second one decides.
pub open spec fn or_else(first: Rank, second: Rank) -> Rank {
    if first == Rank::Same {
        second
    } else {
        first
    }
}

/// Where frame `a` stands relative to frame `b`: frames are ordered by
/// animation, then direction, then frame number, then path.
pub open spec fn img_rank(a: ImgToRender, b: ImgToRender) -> Rank {
    or_else(
        text_rank(a.animation@, b.animation@),
        or_else(
            number_rank(a.direction, b.direction),
            or_else(number_rank(a.frame, b.frame), text_rank(a.path@, b.path@)),
        ),
    )
}

/// Frame `a` does not stand after frame `b`.
pub open spec fn in_order(a: ImgToRender, b: ImgToRender) -> bool {
    img_rank(a, b) != Rank::After
}

/// Every frame of `imgs` stands before or with the frames that follow it.
pub open spec fn is_sorted(imgs: Seq<(ImgToRender, Image)>) -> bool {
    forall|i: int, j: int| 0 <= i < j < imgs.len() ==> in_order(#[trigger] imgs[i].0, #[trigger] imgs[j].0)
}

/// Two texts rank `Same` exactly when they are equal, and swapping two texts
/// swaps `Before` and `After`.
pub proof fn lemma_text_rank(a: Seq<char>, b: Seq<char>)
    ensures
        text_rank(a, b) == Rank::Same <==> a == b,
        text_rank(a, b) == Rank::Before <==> text_rank(b, a) == Rank::After,
        text_rank(a, b) == Rank::After <==> text_rank(b, a) == Rank::Before,
    decreases a.len(),
{
    if a.len() > 0 && b.len() > 0 {
        lemma_text_rank(a.drop_first(), b.drop_first());
        if a[0] == b[0] && a.drop_first() == b.drop_first() {
            assert(a =~= seq![a[0]] + a.drop_first());
            assert(b =~= seq![b[0]] + b.drop_first());
        }
        if a == b {
            assert(a.drop_first() == b.drop_first());
        }
    } else if a.len() == 0 && b.len() == 0 {
        assert(a =~= b);
    }
}

/// The order of texts is transitive.
pub proof fn lemma_text_rank_transitive(a: Seq<char>, b: Seq<char>, c: Seq<char>)
    requires
        text_rank(a, b) == Rank::Before,
        text_rank(b, c) == Rank::Before,
    ensures
        text_rank(a, c) == Rank::Before,
    decreases a.len(),
{
    if a.len() > 0 && b.len() > 0 && c.len() > 0 {
        if a[0] == b[0] && b[0] == c[0] {
            lemma_text_rank_transitive(a.drop_first(), b.drop_first(), c.drop_first());
        }
    }
}

/// The order of frames is total and transitive.
pub proof fn lemma_img_order(a: ImgToRender, b: ImgToRender, c: ImgToRender)
    ensures
        in_order(a, b) || in_order(b, a),
        img_rank(a, b) == Rank::Before <==> img_rank(b, a) == Rank::After,
        in_order(a, b) && in_order(b, c) ==> in_order(a, c),
        img_rank(a, b) == Rank::Before && in_order(b, c) ==> img_rank(a, c) == Rank::Before,
{
    lemma_text_rank(a.animation@, b.animation@);
    lemma_text_rank(b.animation@, c.animation@);
    lemma_text_rank(a.animation@, c.animation@);
    lemma_text_rank(a.path@, b.path@);
    lemma_text_rank(b.path@, c.path@);
    lemma_text_rank(a.path@, c.path@);
    if text_rank(a.animation@, b.animation@) == Rank::Before && text_rank(b.animation@, c.animation@)
        == Rank::Before {
        lemma_text_rank_transitive(a.animation@, b.animation@, c.animation@);
    }
    if text_rank(a.path@, b.path@) == Rank::Before && text_rank(b.path@, c.path@) == Rank::Before {
        lemma_text_rank_transitive(a.path@, b.path@, c.path@);
    }
}

/// Where text `a` stands relative to text `b`.
fn rank_text(a: &str, b: &str) -> (rank: Rank)
    ensures
        rank == text_rank(a@, b@),
{
    broadcast use vstd::string::group_string_axioms;

    let mut left = a.chars();
    let mut right = b.chars();
    let ghost mut done: int = 0;
    proof {
        assert(a@.skip(0) =~= a@);
        assert(b@.skip(0) =~= b@);
    }
    loop
        invariant
            0 <= done <= a@.len(),
            done <= b@.len(),
            left.remaining() == a@.skip(done),
            right.remaining() == b@.skip(done),
            text_rank(a@, b@) == text_rank(a@.skip(done), b@.skip(done)),
        decreases a@.len() - done,
    {
        let x = left.next();
        let y = right.next();
        match (x, y) {
            (None, None) => {
                return Rank::Same;
            },
            (None, Some(_)) => {
                return Rank::Before;
            },
            (Some(_), None) => {
                return Rank::After;
            },
            (Some(p), Some(q)) => {
                if p < q {
                    return Rank::Before;
                }
                if p > q {
                    return Rank::After;
                }
                proof {
                    assert(a@.skip(done).drop_first() =~= a@.skip(done + 1));
                    assert(b@.skip(done).drop_first() =~= b@.skip(done + 1));
                    done = done + 1;
                }
            },
        }
    }
}

/// Where frame `a` stands relative to frame `b`.
pub fn rank_imgs(a: &ImgToRender, b: &ImgToRender) -> (rank: Rank)
    ensures
        rank == img_rank(*a, *b),
{
    match rank_text(a.animation.as_str(), b.animation.as_str()) {
        Rank::Same => {},
        rank => {
            return rank;
        },
    }
    if a.direction < b.direction {
        return Rank::Before;
    }
    if a.direction > b.direction {
        return Rank::After;
    }
    if a.frame < b.frame {
        return Rank::Before;
    }
    if a.frame > b.frame {
        return Rank::After;
    }
    rank_text(a.path.as_str(), b.path.as_str())
}

/// `after` holds the frames of `before` in another order: `from[i]` tells
/// which frame of `before` stands at place `i` of `after`, and every frame of
/// `before` stands at exactly one place.
pub open spec fn is_rearranged(
    after: Seq<(ImgToRender, Image)>,
    before: Seq<(ImgToRender, Image)>,
    from: Seq<int>,
) -> bool {
    &&& after.len() == before.len()
    &&& from.len() == before.len()
    &&& forall|i: int| 0 <= i < from.len() ==> 0 <= #[trigger] from[i] < before.len() && after[i] == before[from[i]]
    &&& forall|i: int, j: int| 0 <= i < j < from.len() ==> #[trigger] from[i] != #[trigger] from[j]
}

/// `after` holds the frames of `before` in order, and frames that rank the
/// same stand as they stood in `before`.
pub open spec fn is_sorting_of(after: Seq<(ImgToRender, Image)>, before: Seq<(ImgToRender, Image)>) -> bool {
    exists|from: Seq<int>|
        {
            &&& #[trigger] is_rearranged(after, before, from)
            &&& forall|i: int, j: int|
                0 <= i < j < after.len() ==> {
                    &&& in_order(#[trigger] after[i].0, #[trigger] after[j].0)
                    &&& img_rank(after[i].0, after[j].0) == Rank::Same ==> from[i] < from[j]
                }
        }
}

/// Puts frames in order: by animation, then direction, then frame number,
/// then path. The frames stay the same frames, and frames that rank the same
/// keep the order in which they came.
pub fn sort_imgs(imgs: &mut Vec<(ImgToRender, Image)>)
    ensures
        is_sorted(final(imgs)@),
        is_sorting_of(final(imgs)@, old(imgs)@),
{
    let ghost mut from: Seq<int> = Seq::new(imgs@.len(), |t: int| t);
    let mut i: usize = 0;
    while i < imgs.len()
        invariant
            i <= imgs.len(),
            is_rearranged(imgs@, old(imgs)@, from),
            forall|t: int| i <= t < from.len() ==> #[trigger] from[t] == t,
            forall|t: int| 0 <= t < i ==> #[trigger] from[t] < i,
            forall|p: int, q: int|
                0 <= p < q < i ==> {
                    &&& in_order(#[trigger] imgs@[p].0, #[trigger] imgs@[q].0)
                    &&& img_rank(imgs@[p].0, imgs@[q].0) == Rank::Same ==> from[p] < from[q]
                },
        decreases imgs.len() - i,
    {
        let ghost before = imgs@;
        let ghost came = from;
        let item = imgs.remove(i);
        let ghost rest = imgs@;
        let mut j: usize = 0;
        while j < i && !matches!(rank_imgs(&item.0, &imgs[j].0), Rank::Before)
            invariant
                j <= i <= imgs.len(),
                imgs@ == rest,
                forall|t: int| 0 <= t < j ==> img_rank(item.0, (#[trigger] rest[t]).0) != Rank::Before,
            decreases i - j,
        {
            j += 1;
        }
        imgs.insert(j, item);
        proof {
            from = came.remove(i as int).insert(j as int, i as int);
            let now = imgs@;
            // Where the frame at place `t` stood before this step.
            let back = |t: int|
                if t < j {
                    t
                } else if t == j {
                    i as int
                } else if t <= i {
                    t - 1
                } else {
                    t
                };
            assert forall|t: int| 0 <= t < now.len() implies now[t] == before[back(t)] && #[trigger] from[t]
                == came[back(t)] by {}
            assert forall|p: int, q: int| 0 <= p < q < from.len() implies #[trigger] from[p] != #[trigger] from[q] by {
                assert(from[p] == came[back(p)]);
                assert(from[q] == came[back(q)]);
                assert(back(p) != back(q));
                if back(p) < back(q) {
                    assert(came[back(p)] != came[back(q)]);
                } else {
                    assert(came[back(q)] != came[back(p)]);
                }
            }
            assert forall|p: int, q: int| 0 <= p < q < i + 1 implies {
                &&& in_order(#[trigger] now[p].0, #[trigger] now[q].0)
                &&& img_rank(now[p].0, now[q].0) == Rank::Same ==> from[p] < from[q]
            } by {
                assert(now[p] == before[back(p)] && from[p] == came[back(p)]);
                assert(now[q] == before[back(q)] && from[q] == came[back(q)]);
                if q == j {
                    assert(rest[p] == before[p]);
                    lemma_img_order(item.0, before[p].0, item.0);
                } else if p == j {
                    assert(rest[j as int] == before[j as int]);
                    if (j as int) < q - 1 {
                        assert(in_order(before[j as int].0, before[q - 1].0));
                    }
                    lemma_img_order(before[j as int].0, before[j as int].0, before[j as int].0);
                    lemma_img_order(item.0, before[j as int].0, before[q - 1].0);
                    lemma_img_order(item.0, before[q - 1].0, item.0);
                } else {
                    assert(in_order(before[back(p)].0, before[back(q)].0));
                }
            }
        }
        i += 1;
    }
}

/// The frames, each under the name of its animation.
pub open spec fn by_animation(imgs: Seq<(ImgToRender, Image)>) -> Seq<(String, (ImgToRender, Image))> {
    Seq::new(imgs.len(), |i: int| (imgs[i].0.animation, imgs[i]))
}

/// `entries` holds the frames of `imgs` by animation: one entry for each
/// animation, in the order in which the animations first occur, with the
/// frames of that animation, and no others, in order.
pub open spec fn is_sourced(
    entries: Seq<(String, Vec<(ImgToRender, Image)>)>,
    imgs: Seq<(ImgToRender, Image)>,
) -> bool {
    let names = keys_seen(by_animation(imgs));
    &&& entries.len() == names.len()
    &&& forall|i: int|
        0 <= i < entries.len() ==> {
            let entry = #[trigger] entries[i];
            &&& entry.0@ == names[i]
            &&& is_sorted(entry.1@)
            &&& is_sorting_of(entry.1@, values_of(by_animation(imgs), names[i]))
            &&& forall|j: int| 0 <= j < entry.1@.len() ==> (#[trigger] entry.1@[j]).0.animation@ == names[i]
        }
}

/// Every frame of a sorted group is one of the items with the key of the
/// group.
pub proof fn lemma_members_are_items(
    members: Seq<(ImgToRender, Image)>,
    items: Seq<(String, (ImgToRender, Image))>,
    key: Seq<char>,
    j: int,
)
    requires
        is_sorting_of(members, values_of(items, key)),
        0 <= j < members.len(),
    ensures
        exists|i: int| 0 <= i < items.len() && (#[trigger] items[i]).0@ == key && items[i].1 == members[j],
{
    let values = values_of(items, key);
    let from = choose|from: Seq<int>| #[trigger] is_rearranged(members, values, from);
    assert(members[j] == values[from[j]]);
    lemma_values_are_items(items, key, from[j]);
}

/// Puts the frames of every group in order.
fn sort_groups(groups: &mut [(String, Vec<(ImgToRender, Image)>)])
    ensures
        final(groups)@.len() == old(groups)@.len(),
        forall|i: int|
            0 <= i < old(groups)@.len() ==> {
                let group = #[trigger] final(groups)@[i];
                &&& group.0 == old(groups)@[i].0
                &&& is_sorted(group.1@)
                &&& is_sorting_of(group.1@, old(groups)@[i].1@)
            },
{
    let mut i: usize = 0;
    while i < groups.len()
        invariant
            i <= groups@.len(),
            groups@.len() == old(groups)@.len(),
            forall|t: int|
                0 <= t < i ==> {
                    let group = #[trigger] groups@[t];
                    &&& group.0 == old(groups)@[t].0
                    &&& is_sorted(group.1@)
                    &&& is_sorting_of(group.1@, old(groups)@[t].1@)
                },
            forall|t: int| i <= t < groups@.len() ==> #[trigger] groups@[t] == old(groups)@[t],
        decreases groups@.len() - i,
    {
        sort_imgs(&mut groups[i].1);
        i += 1;
    }
}

/// Sources the frames of one sprite sheet: groups them by animation, the
/// animations in the order in which they first occur, and puts the frames of
/// each animation in order.
pub fn execute(imgs: Vec<(ImgToRender, Image)>) -> (groups: SortedMap<String, Vec<(ImgToRender, Image)>>)
    ensures
        is_sourced(groups.entries(), imgs@),
        (forall|k: int| 0 <= k < imgs.len() ==> (#[trigger] imgs[k]).1.wf()) ==> forall|i: int, j: int|
            0 <= i < groups.entries().len() && 0 <= j < groups.entries()[i].1.len() ==> (
            #[trigger] groups.entries()[i].1[j]).1.wf(),
{
    // Batch the images by animation
    let mut rest = imgs;
    let mut named: Vec<(String, (ImgToRender, Image))> = Vec::new();
    while rest.len() > 0
        invariant
            named.len() + rest.len() == imgs.len(),
            rest@ == imgs@.skip(named.len() as int),
            named@ == by_animation(imgs@).take(named.len() as int),
        decreases rest.len(),
    {
        let ghost k = named.len() as int;
        let img = rest.remove(0);
        proof {
            assert(imgs@.skip(k)[0] == imgs@[k]);
            assert(imgs@.skip(k).remove(0) =~= imgs@.skip(k + 1));
        }
        let name = img.0.animation.clone();
        named.push((name, img));
        proof {
            assert(named@ =~= by_animation(imgs@).take(k + 1));
        }
    }
    proof {
        assert(named@ =~= by_animation(imgs@));
    }
    let mut groups = group_by_key(named);

    // Sort it all so that it's consistently ordered.
    sort_groups(groups.iter_mut());

    proof {
        let entries = groups.entries();
        let names = keys_seen(by_animation(imgs@));
        assert forall|i: int, j: int| 0 <= i < entries.len() && 0 <= j < entries[i].1@.len() implies (
        #[trigger] entries[i].1@[j]).0.animation@ == names[i] by {
            lemma_members_are_items(entries[i].1@, by_animation(imgs@), names[i], j);
        }
        if forall|k: int| 0 <= k < imgs.len() ==> (#[trigger] imgs[k]).1.wf() {
            assert forall|i: int, j: int| 0 <= i < entries.len() && 0 <= j < entries[i].1.len() implies (
            #[trigger] entries[i].1[j]).1.wf() by {
                lemma_members_are_items(entries[i].1@, by_animation(imgs@), names[i], j);
                let k = choose|k: int|
                    0 <= k < by_animation(imgs@).len() && (#[trigger] by_animation(imgs@)[k]).0@ == names[i]
                        && by_animation(imgs@)[k].1 == entries[i].1@[j];
                assert(imgs[k].1.wf());
            }
        }
    }
    groups
}

} // verus!
