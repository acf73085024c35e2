//! Reviews and rules from the rows of a spreadsheet.
//!
//! A review row holds, from the left: the traditional character, the
//! simplified character, the curator's note, and a compatible variant.  A
//! rule row holds the two characters of the premise and two cells of output
//! text, in which traditional and simplified characters alternate.
use crate::cells::cell_texts;
use crate::cells::row_texts;
use crate::cells::text_views;
use crate::mapping::is_radical;
use crate::mapping::radical;
use crate::mapping::Mapping;
use crate::mapping::Review;
use crate::rule::Rule;
use crate::rule::RuleSpec;
use crate::text::chars_of;
use crate::text::is_whitespace;
use crate::text::whitespace;
use calamine::Data;
use vstd::prelude::*;

verus! {

/// The mark at the end of a note whose curator has not decided.
pub const UNDECIDED: char = '？';

/// A note gives no fix where it is empty or ends with the mark.
pub open spec fn undecided(note: Seq<char>) -> bool {
    note.len() == 0 || note.last() == UNDECIDED
}

/// The fix that a decided note stands for: the compatible variant where one
/// is given, the first character of the note where none is.
pub open spec fn fix_of(note: Seq<char>, compatible: Seq<char>) -> Option<char> {
    if undecided(note) {
        None
    } else if compatible.len() > 0 {
        Some(compatible[0])
    } else {
        Some(note[0])
    }
}

/// The texts of a row can be read as a review or as the premise of a rule:
/// there are four of them and the first two are not empty.
pub open spec fn row_ok(texts: Seq<Seq<char>>) -> bool {
    texts.len() >= 4 && texts[0].len() > 0 && texts[1].len() > 0
}

/// The mapping at the head of a row: the first character of the first text
/// and the first character of the second.
pub open spec fn head_of(texts: Seq<Seq<char>>) -> Mapping {
    Mapping { trad: texts[0][0], simp: texts[1][0] }
}

/// The review that a row stands for.
pub open spec fn review_of(texts: Seq<Seq<char>>) -> Review {
    Review { mapping: head_of(texts), fix: fix_of(texts[2], texts[3]) }
}

/// Tells whether the texts of a row can be read.
pub fn check_texts(texts: &Vec<String>) -> (ok: bool)
    ensures
        ok == row_ok(text_views(texts@)),
{
    texts.len() >= 4 && !texts[0].as_str().is_empty() && !texts[1].as_str().is_empty()
}

/// Reads the mapping at the head of a row.
fn head(texts: &Vec<String>) -> (m: Mapping)
    requires
        row_ok(text_views(texts@)),
    ensures
        m == head_of(text_views(texts@)),
{
    let trad = chars_of(texts[0].as_str());
    let simp = chars_of(texts[1].as_str());
    Mapping::new(trad[0], simp[0])
}

/// Reads a review from the texts of a row.
pub fn review_from_texts(texts: &Vec<String>) -> (review: Review)
    requires
        row_ok(text_views(texts@)),
    ensures
        review == review_of(text_views(texts@)),
{
    let mapping = head(texts);
    let note = chars_of(texts[2].as_str());
    let compatible = chars_of(texts[3].as_str());
    let fix = if note.len() == 0 || note[note.len() - 1] == UNDECIDED {
        None
    } else if compatible.len() > 0 {
        Some(compatible[0])
    } else {
        Some(note[0])
    };
    Review { mapping, fix }
}

/// Reads a review from a row whose first two cells hold a character each.
pub fn parse_review(row: &[Data]) -> (review: Review)
    requires
        row_ok(row_texts(row@)),
    ensures
        review == review_of(row_texts(row@)),
{
    let texts = cell_texts(row);
    review_from_texts(&texts)
}

/// Reads a review from a row, or nothing where the row has fewer than four
/// cells or one of its first two cells is empty.
pub fn try_parse_review(row: &[Data]) -> (review: Option<Review>)
    ensures
        review == (if row_ok(row_texts(row@)) {
            Some(review_of(row_texts(row@)))
        } else {
            None
        }),
{
    let texts = cell_texts(row);
    if check_texts(&texts) {
        Some(review_from_texts(&texts))
    } else {
        None
    }
}

/// The reviews of a list whose traditional character is a radical, or those
/// whose traditional character is none, in their order.
pub open spec fn reviews_where(reviews: Seq<Review>, of_radicals: bool) -> Seq<Review>
    decreases reviews.len(),
{
    if reviews.len() == 0 {
        Seq::empty()
    } else if radical(reviews.last().mapping.trad) == of_radicals {
        reviews_where(reviews.drop_last(), of_radicals).push(reviews.last())
    } else {
        reviews_where(reviews.drop_last(), of_radicals)
    }
}

/// Parts the reviews into those of ordinary characters and those of
/// radicals.
pub fn split_reviews(reviews: Vec<Review>) -> (parts: (Vec<Review>, Vec<Review>))
    ensures
        parts.0@ == reviews_where(reviews@, false),
        parts.1@ == reviews_where(reviews@, true),
{
    let mut ichars: Vec<Review> = Vec::new();
    let mut radicals: Vec<Review> = Vec::new();
    let mut i: usize = 0;
    proof {
        assert(reviews@.take(0) =~= Seq::<Review>::empty());
    }
    while i < reviews.len()
        invariant
            i <= reviews.len(),
            ichars@ == reviews_where(reviews@.take(i as int), false),
            radicals@ == reviews_where(reviews@.take(i as int), true),
        decreases reviews.len() - i,
    {
        let review = reviews[i];
        proof {
            reviews@.lemma_take_succ_push(i as int);
            assert(reviews@.take(i as int + 1).drop_last() =~= reviews@.take(i as int));
        }
        if is_radical(review.mapping.trad) {
            radicals.push(review);
        } else {
            ichars.push(review);
        }
        i += 1;
    }
    proof {
        assert(reviews@.take(reviews.len() as int) =~= reviews@);
    }
    (ichars, radicals)
}

/// The characters of a text that are not whitespace, in their order.
pub open spec fn visible(text: Seq<char>) -> Seq<char>
    decreases text.len(),
{
    if text.len() == 0 {
        Seq::empty()
    } else if whitespace(text.last()) {
        visible(text.drop_last())
    } else {
        visible(text.drop_last()).push(text.last())
    }
}

/// The mapping that the pair `i` of a stream spells, the pairs counted from
/// zero.
pub open spec fn pair_at(stream: Seq<char>, i: int) -> Mapping {
    Mapping { trad: stream[2 * i], simp: stream[2 * i + 1] }
}

/// The mappings that a stream of characters spells: the first character
/// with the second, the third with the fourth, and so on.
pub open spec fn pairs(stream: Seq<char>) -> Seq<Mapping> {
    Seq::new(stream.len() / 2, |i: int| pair_at(stream, i))
}

/// Why a row is no rule.
#[derive(PartialEq, Eq, Structural, Clone, Copy, Debug)]
pub enum RuleError {
    /// The row has fewer than four cells, or one of the two cells of the
    /// premise is empty.
    MissingPremise,
    /// The last traditional character of the output has no simplified
    /// character behind it.
    Unpaired { premise: Mapping, trad: char },
}

/// The rule that a row stands for.  A row without output stands for none.
pub open spec fn rule_of(texts: Seq<Seq<char>>) -> Result<Option<RuleSpec>, RuleError> {
    let stream = visible(texts[2] + texts[3]);
    if !row_ok(texts) {
        Err(RuleError::MissingPremise)
    } else if stream.len() % 2 == 1 {
        Err(RuleError::Unpaired { premise: head_of(texts), trad: stream.last() })
    } else if stream.len() == 0 {
        Ok(None)
    } else {
        Ok(Some(RuleSpec { premise: head_of(texts), output: pairs(stream) }))
    }
}

/// What a parsed row is, as a mathematical value.
pub open spec fn parsed_view(parsed: Result<Option<Rule>, RuleError>) -> Result<
    Option<RuleSpec>,
    RuleError,
> {
    match parsed {
        Ok(Some(rule)) => Ok(Some(rule@)),
        Ok(None) => Ok(None),
        Err(e) => Err(e),
    }
}

/// What one more character adds to what is visible of a text.
proof fn lemma_visible_push(text: Seq<char>, c: char)
    ensures
        visible(text.push(c)) == if whitespace(c) {
            visible(text)
        } else {
            visible(text).push(c)
        },
{
    assert(text.push(c).drop_last() =~= text);
}

/// What is visible of two texts, one behind the other, is what is visible
/// of the first and behind it what is visible of the second.
pub proof fn lemma_visible_concat(left: Seq<char>, right: Seq<char>)
    ensures
        visible(left + right) == visible(left) + visible(right),
    decreases right.len(),
{
    if right.len() == 0 {
        assert(left + right =~= left);
        assert(visible(left) + visible(right) =~= visible(left));
    } else {
        let init = right.drop_last();
        lemma_visible_concat(left, init);
        assert(left + right =~= (left + init).push(right.last()));
        lemma_visible_push(left + init, right.last());
        assert(visible(left) + visible(init).push(right.last()) =~= (visible(left) + visible(
            init,
        )).push(right.last()));
    }
}

/// Appends to `stream` the characters of `text` that are not whitespace.
fn push_visible(stream: &mut Vec<char>, text: &Vec<char>)
    ensures
        final(stream)@ == old(stream)@ + visible(text@),
{
    let mut i: usize = 0;
    proof {
        assert(text@.take(0) =~= Seq::<char>::empty());
        assert(stream@ =~= old(stream)@ + visible(text@.take(0)));
    }
    while i < text.len()
        invariant
            i <= text.len(),
            stream@ == old(stream)@ + visible(text@.take(i as int)),
        decreases text.len() - i,
    {
        let c = text[i];
        proof {
            text@.lemma_take_succ_push(i as int);
            lemma_visible_push(text@.take(i as int), c);
        }
        if !is_whitespace(c) {
            stream.push(c);
            proof {
                assert(stream@ =~= old(stream)@ + visible(text@.take(i as int + 1)));
            }
        }
        i += 1;
    }
    proof {
        assert(text@.take(text.len() as int) =~= text@);
    }
}

/// Pairs the characters of a stream of `2 * half` characters.
fn pair_up(stream: &Vec<char>, half: usize) -> (output: Vec<Mapping>)
    requires
        stream.len() == 2 * half,
    ensures
        output@ == pairs(stream@),
{
    let mut output: Vec<Mapping> = Vec::new();
    let mut k: usize = 0;
    while k < half
        invariant
            k <= half,
            stream.len() == 2 * half,
            output.len() == k,
            forall|j: int| 0 <= j < k ==> (#[trigger] output@[j]) == pair_at(stream@, j),
        decreases half - k,
    {
        output.push(Mapping::new(stream[2 * k], stream[2 * k + 1]));
        k += 1;
    }
    proof {
        assert(stream@.len() / 2 == half);
        assert(output@ =~= pairs(stream@));
    }
    output
}

/// Reads a rule from the texts of a row.  The two texts of output are read
/// as one.  Whitespace in it is passed over, and the characters that are
/// left are paired.
pub fn rule_from_texts(texts: &Vec<String>) -> (parsed: Result<Option<Rule>, RuleError>)
    ensures
        parsed_view(parsed) == rule_of(text_views(texts@)),
{
    if !check_texts(texts) {
        return Err(RuleError::MissingPremise);
    }
    let premise = head(texts);
    let left = chars_of(texts[2].as_str());
    let right = chars_of(texts[3].as_str());
    let mut stream: Vec<char> = Vec::new();
    push_visible(&mut stream, &left);
    push_visible(&mut stream, &right);
    proof {
        lemma_visible_concat(left@, right@);
        assert(stream@ =~= visible(left@) + visible(right@));
    }
    let half = stream.len() / 2;
    if stream.len() - 2 * half == 1 {
        Err(RuleError::Unpaired { premise, trad: stream[stream.len() - 1] })
    } else if stream.len() == 0 {
        Ok(None)
    } else {
        let output = pair_up(&stream, half);
        Ok(Some(Rule { premise, output }))
    }
}

/// Reads a rule from a row.
pub fn parse_rule(row: &[Data]) -> (parsed: Result<Option<Rule>, RuleError>)
    ensures
        parsed_view(parsed) == rule_of(row_texts(row@)),
{
    let texts = cell_texts(row);
    rule_from_texts(&texts)
}

/// The reviews that are picked by their traditional character being a
/// radical, or being none, are of that kind.
pub proof fn lemma_reviews_where_entries(reviews: Seq<Review>, of_radicals: bool, k: int)
    requires
        0 <= k < reviews_where(reviews, of_radicals).len(),
    ensures
        radical(reviews_where(reviews, of_radicals)[k].mapping.trad) == of_radicals,
    decreases reviews.len(),
{
    if reviews.len() > 0 {
        if k < reviews_where(reviews.drop_last(), of_radicals).len() {
            lemma_reviews_where_entries(reviews.drop_last(), of_radicals, k);
        }
    }
}

} // verus!
