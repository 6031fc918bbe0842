//! The two input formats: the records, one per line, and the line that holds
//! the prior probabilities of the nonce bits.

use crate::data_structures::BlockHeaderData;
use crate::numbers::{append_decimal, decimal_digits, is_digit, parse_unsigned, parsed_unsigned};
use vstd::string::StringExecFns;
use vstd::prelude::*;

verus! {

broadcast use vstd::string::group_string_axioms;

/// Why an input was refused.
#[derive(Debug, Clone, Copy, PartialEq, Eq, Structural)]
pub enum ParseError {
    /// The record line at this index, counted from 0, is not two bit strings.
    Record(usize),
    /// The priors line holds more than [`MAX_DIGITS`] decimal digits in a row.
    Digits,
    /// The priors line is not a JSON document.
    Document,
    /// A `p0` or `p1` of the entry at this index, counted from 0, is not a number.
    Probability(usize),
    /// The key of the entry at this index, counted from 0, is not the decimal
    /// number of a nonce bit, counted from 1.
    Index(usize),
}

/// A character that separates the fields of a line: a space, a tab, a line feed,
/// a form feed or a carriage return.
pub open spec fn is_space(c: char) -> bool {
    c == ' ' || c == '\t' || c == '\n' || c == '\x0c' || c == '\r'
}

/// A character of a bit string.
pub open spec fn is_bit(c: char) -> bool {
    c == '0' || c == '1'
}

/// The text holds nothing but `0` and `1`.
pub open spec fn is_bit_string(text: Seq<char>) -> bool {
    forall|i: int| 0 <= i < text.len() ==> is_bit(#[trigger] text[i])
}

/// The bits that a bit string writes, in the order of the text.
pub open spec fn bits_of(text: Seq<char>) -> Seq<bool> {
    Seq::new(text.len(), |i: int| text[i] == '1')
}

/// Reads a bit string. A text with any other character than `0` and `1` is none.
pub fn import_bin_string(string_array: &str) -> (vals: Option<Vec<bool>>)
    ensures
        match vals {
            Some(bits) => is_bit_string(string_array@) && bits@ == bits_of(string_array@),
            None => !is_bit_string(string_array@),
        },
{
    let mut vals: Vec<bool> = Vec::new();
    for c in it: string_array.chars()
        invariant
            it.seq() == string_array@,
            is_bit_string(string_array@.take(it.index())),
            vals@ == bits_of(string_array@.take(it.index())),
    {
        if c == '1' {
            vals.push(true);
        } else if c == '0' {
            vals.push(false);
        } else {
            assert(!is_bit(string_array@[it.index()]));
            return None;
        }
        assert(vals@ =~= bits_of(string_array@.take(it.index() + 1)));
    }
    assert(string_array@.take(string_array@.len() as int) =~= string_array@);
    Some(vals)
}

/// The fields of a line: its longest runs of characters that are no separators,
/// in the order of the line. Separators in a row, and separators at either end,
/// hold no field between them.
pub open spec fn fields_of(line: Seq<char>) -> Seq<Seq<char>>
    decreases line.len(),
{
    if line.len() == 0 {
        Seq::empty()
    } else {
        let before = fields_of(line.drop_last());
        if is_space(line.last()) {
            before
        } else if line.len() >= 2 && !is_space(line[line.len() - 2]) {
            before.drop_last().push(before.last().push(line.last()))
        } else {
            before.push(seq![line.last()])
        }
    }
}

/// A line that ends in a field has a field; no field is empty, and none holds a
/// separator.
pub proof fn lemma_fields_of(line: Seq<char>)
    ensures
        line.len() > 0 && !is_space(line.last()) ==> fields_of(line).len() > 0,
        forall|k: int|
            0 <= k < fields_of(line).len() ==> (#[trigger] fields_of(line)[k]).len() > 0,
        forall|k: int, i: int|
            0 <= k < fields_of(line).len() && 0 <= i < fields_of(line)[k].len() ==> !is_space(
                #[trigger] fields_of(line)[k][i],
            ),
    decreases line.len(),
{
    if line.len() > 0 {
        lemma_fields_of(line.drop_last());
        let before = fields_of(line.drop_last());
        let fields = fields_of(line);
        if is_space(line.last()) {
        } else if line.len() >= 2 && !is_space(line[line.len() - 2]) {
            assert(line.drop_last().last() == line[line.len() - 2]);
            assert forall|k: int, i: int|
                0 <= k < fields.len() && 0 <= i < fields[k].len() implies !is_space(
                #[trigger] fields[k][i],
            ) by {
                if k < fields.len() - 1 {
                    assert(fields[k] == before[k]);
                } else if i < before.last().len() {
                    assert(fields[k][i] == before.last()[i]);
                }
            }
        } else {
            assert forall|k: int, i: int|
                0 <= k < fields.len() && 0 <= i < fields[k].len() implies !is_space(
                #[trigger] fields[k][i],
            ) by {
                if k < fields.len() - 1 {
                    assert(fields[k] == before[k]);
                }
            }
        }
    }
}

/// The record that a line writes: it has two fields, both are bit strings, the
/// first is the header and the second the nonce. Any other line writes none.
pub open spec fn record_of(line: Seq<char>) -> Option<(Seq<bool>, Seq<bool>)> {
    let fields = fields_of(line);
    if fields.len() == 2 && is_bit_string(fields[0]) && is_bit_string(fields[1]) {
        Some((bits_of(fields[0]), bits_of(fields[1])))
    } else {
        None
    }
}

/// Whether the character separates fields.
fn separates(c: char) -> (r: bool)
    ensures
        r == is_space(c),
{
    c == ' ' || c == '\t' || c == '\n' || c == '\x0c' || c == '\r'
}

/// Reads one record line: `(header, nonce)` in the terms of [`record_of`].
pub fn import_record(line: &str) -> (r: Option<BlockHeaderData>)
    ensures
        match r {
            Some(record) => record_of(line@) == Some((record.header@, record.nonce@)),
            None => record_of(line@) is None,
        },
{
    let mut header: Vec<bool> = Vec::new();
    let mut nonce: Vec<bool> = Vec::new();
    // The number of fields so far, counted up to three.
    let mut fields: u8 = 0;
    let mut in_field = false;
    let mut well_written = true;
    for c in it: line.chars()
        invariant
            it.seq() == line@,
            in_field == (it.index() > 0 && !is_space(line@[it.index() - 1])),
            fields <= 3,
            fields < 3 ==> fields == fields_of(line@.take(it.index())).len(),
            fields == 3 ==> fields_of(line@.take(it.index())).len() >= 3,
            fields == 0 ==> header@.len() == 0 && nonce@.len() == 0 && well_written,
            fields == 1 ==> nonce@.len() == 0,
            fields >= 1 ==> (well_written ==> header@ == bits_of(
                fields_of(line@.take(it.index()))[0],
            )),
            fields >= 2 ==> (well_written ==> nonce@ == bits_of(
                fields_of(line@.take(it.index()))[1],
            )),
            fields == 1 ==> (well_written <==> is_bit_string(
                fields_of(line@.take(it.index()))[0],
            )),
            fields >= 2 ==> (well_written <==> is_bit_string(fields_of(line@.take(it.index()))[0])
                && is_bit_string(fields_of(line@.take(it.index()))[1])),
    {
        let ghost seen = line@.take(it.index());
        let ghost more = line@.take(it.index() + 1);
        let ghost before = fields_of(seen);
        let ghost after = fields_of(more);
        proof {
            assert(more.drop_last() =~= seen);
            assert(more.last() == c);
            if it.index() > 0 {
                assert(more[more.len() - 2] == line@[it.index() - 1]);
                assert(seen.last() == line@[it.index() - 1]);
            }
            lemma_fields_of(seen);
        }
        if separates(c) {
            in_field = false;
        } else {
            if !in_field && fields < 3 {
                fields += 1;
            }
            let bit = c == '1';
            let written = c == '1' || c == '0';
            proof {
                let last = after.len() - 1;
                if in_field {
                    assert(after[last] == before.last().push(c));
                    assert(after[last].drop_last() =~= before.last());
                    assert(bits_of(after[last]) =~= bits_of(before.last()).push(bit));
                    assert(is_bit_string(after[last]) <==> is_bit_string(before.last()) && is_bit(
                        c,
                    )) by {
                        if is_bit_string(after[last]) {
                            assert forall|i: int| 0 <= i < before.last().len() implies is_bit(
                                #[trigger] before.last()[i],
                            ) by {
                                assert(after[last][i] == before.last()[i]);
                            }
                            assert(after[last][after[last].len() - 1] == c);
                        }
                    }
                    assert forall|k: int| 0 <= k < last implies after[k] == before[k] by {}
                } else {
                    assert(after[last] == seq![c]);
                    assert(bits_of(after[last]) =~= Seq::<bool>::empty().push(bit));
                    assert(is_bit_string(after[last]) <==> is_bit(c)) by {
                        assert(after[last][0] == c);
                    }
                    assert forall|k: int| 0 <= k < last implies after[k] == before[k] by {}
                }
            }
            if fields == 1 {
                if written {
                    header.push(bit);
                } else {
                    well_written = false;
                }
            } else if fields == 2 {
                if written {
                    nonce.push(bit);
                } else {
                    well_written = false;
                }
            }
            in_field = true;
        }
    }
    assert(line@.take(line@.len() as int) =~= line@);
    if fields == 2 && well_written {
        Some(BlockHeaderData { nonce, header })
    } else {
        None
    }
}

/// The records of the lines, or the first line that writes none.
pub open spec fn records_of(lines: Seq<String>) -> Result<Seq<(Seq<bool>, Seq<bool>)>, ParseError>
    decreases lines.len(),
{
    if lines.len() == 0 {
        Ok(Seq::empty())
    } else {
        match records_of(lines.drop_last()) {
            Ok(records) => match record_of(lines.last()@) {
                Some(record) => Ok(records.push(record)),
                None => Err(ParseError::Record((lines.len() - 1) as usize)),
            },
            Err(e) => Err(e),
        }
    }
}

/// The headers and nonces of the records, in order.
pub open spec fn record_views(data: Seq<BlockHeaderData>) -> Seq<(Seq<bool>, Seq<bool>)> {
    data.map_values(|record: BlockHeaderData| (record.header@, record.nonce@))
}

/// Reads the record store from the lines of its file.
pub fn import_headers_file(lines: &Vec<String>) -> (r: Result<Vec<BlockHeaderData>, ParseError>)
    ensures
        match r {
            Ok(data) => records_of(lines@) == Ok::<Seq<(Seq<bool>, Seq<bool>)>, ParseError>(
                record_views(data@),
            ),
            Err(e) => records_of(lines@) == Err::<Seq<(Seq<bool>, Seq<bool>)>, ParseError>(e),
        },
{
    let mut data: Vec<BlockHeaderData> = Vec::new();
    let mut n: usize = 0;
    assert(record_views(data@) =~= Seq::empty());
    while n < lines.len()
        invariant
            n <= lines.len(),
            records_of(lines@.take(n as int)) == Ok::<Seq<(Seq<bool>, Seq<bool>)>, ParseError>(
                record_views(data@),
            ),
        decreases lines.len() - n,
    {
        let ghost more = lines@.take(n + 1);
        assert(more.drop_last() =~= lines@.take(n as int));
        match import_record(lines[n].as_str()) {
            Some(record) => {
                let ghost before = data@;
                data.push(record);
                assert(record_views(data@) =~= record_views(before).push(
                    (record.header@, record.nonce@),
                ));
            },
            None => {
                proof {
                    lemma_records_of_fails(lines@, n as int + 1);
                }
                return Err(ParseError::Record(n));
            },
        }
        n += 1;
    }
    assert(lines@.take(n as int) =~= lines@);
    Ok(data)
}

/// The first line that writes no record stays the answer, whatever follows it.
pub proof fn lemma_records_of_fails(lines: Seq<String>, n: int)
    requires
        0 <= n <= lines.len(),
        records_of(lines.take(n)) is Err,
    ensures
        records_of(lines) == records_of(lines.take(n)),
    decreases lines.len(),
{
    if n == lines.len() {
        assert(lines.take(n) =~= lines);
    } else {
        assert(lines.drop_last().take(n) =~= lines.take(n));
        lemma_records_of_fails(lines.drop_last(), n);
    }
}

/// A number as a JSON document writes it: whether it is positive, its decimal
/// digits as one integer, and the power of ten that this integer is multiplied
/// with.
pub type Decimal = (bool, u64, i16);

/// The prior probabilities of one nonce bit, as the document wrote them.
#[derive(Debug, Clone, Copy, PartialEq, Eq)]
pub struct NoncePrior {
    /// The position of the nonce bit, counted from 0.
    pub nonce_bit: usize,
    /// The probability of the bit being 0.
    pub p_zero: Decimal,
    /// The probability of the bit being 1.
    pub p_one: Decimal,
}

/// A member of the priors document, as it was read: its key and, for each member
/// of its value, the name and the number, if it is a number.
pub type Member = (String, Vec<(String, Option<Decimal>)>);

/// What a [`Member`] holds, as mathematical values.
pub type MemberView = (Seq<char>, Seq<(Seq<char>, Option<Decimal>)>);

/// The views of the members, in order.
pub open spec fn member_views(members: Seq<Member>) -> Seq<MemberView> {
    members.map_values(
        |member: Member|
            (
                member.0@,
                member.1@.map_values(|field: (String, Option<Decimal>)| (field.0@, field.1)),
            ),
    )
}

/// The longest run of decimal digits in a priors line that is read. The parser
/// counts the digits of a fraction in 16 bits, so a line with a longer run is not
/// handed to it.
pub const MAX_DIGITS: usize = 32767;

/// The number of decimal digits at the end of the text.
pub open spec fn trailing_digits(text: Seq<char>) -> nat
    decreases text.len(),
{
    if text.len() == 0 || !is_digit(text.last()) {
        0
    } else {
        trailing_digits(text.drop_last()) + 1
    }
}

/// No run of decimal digits in the text is longer than [`MAX_DIGITS`].
pub open spec fn digit_runs_fit(text: Seq<char>) -> bool {
    forall|n: int| 0 <= n <= text.len() ==> trailing_digits(#[trigger] text.take(n)) <= MAX_DIGITS
}

/// Whether no run of decimal digits in the text is longer than [`MAX_DIGITS`].
pub fn check_digit_runs(text: &str) -> (r: bool)
    ensures
        r == digit_runs_fit(text@),
{
    let mut run: usize = 0;
    assert(text@.take(0) =~= Seq::<char>::empty());
    for c in it: text.chars()
        invariant
            it.seq() == text@,
            run == trailing_digits(text@.take(it.index())),
            forall|n: int|
                0 <= n <= it.index() ==> trailing_digits(#[trigger] text@.take(n)) <= MAX_DIGITS,
    {
        assert(text@.take(it.index() + 1).drop_last() =~= text@.take(it.index()));
        if c >= '0' && c <= '9' {
            if run >= MAX_DIGITS {
                assert(trailing_digits(text@.take(it.index() + 1)) > MAX_DIGITS);
                return false;
            }
            run += 1;
        } else {
            run = 0;
        }
    }
    true
}

/// What the crate `json` reads from a text: the members of the object that the
/// text writes, in the order of the text, and for each the members of its value,
/// each with its name and, where it is a number, the sign, the digits and the power
/// of ten that the crate has read. A value that is no object has no members.
/// `None` where the text is not JSON.
pub uninterp spec fn json_numbers(text: Seq<char>) -> Option<
    Seq<(Seq<char>, Seq<(Seq<char>, Option<(bool, u64, i16)>)>)>,
>;

/// Calls `json::parse` on the text and walks the document with
/// `JsonValue::entries`, `JsonValue::as_number` and `Number::as_parts`. Claimed of
/// them: the same text gives the same answer, which is `None` where the parser
/// fails. Nothing more is claimed of what the parser reads. The text has to hold
/// no run of more than [`MAX_DIGITS`] digits, on which the parser's count of
/// fraction digits overflows.
#[verifier::external_body]
fn parse_members(text: &str) -> (r: Option<Vec<Member>>)
    requires
        digit_runs_fit(text@),
    ensures
        match r {
            Some(members) => json_numbers(text@) == Some(member_views(members@)),
            None => json_numbers(text@) is None,
        },
{
    let fields = |value: &json::JsonValue| -> Vec<(String, Option<Decimal>)> {
        let number = |n: &json::JsonValue| n.as_number().map(|p| p.as_parts());
        value.entries().map(|(name, n)| (name.to_string(), number(n))).collect()
    };
    match json::parse(text) {
        Ok(document) => {
            Some(document.entries().map(|(key, v)| (key.to_string(), fields(v))).collect())
        },
        Err(_) => None,
    }
}

/// The number 0, which stands for a probability that the document does not name.
pub open spec fn zero() -> Decimal {
    (true, 0u64, 0i16)
}

/// The name of the probability of a 0.
pub open spec fn name_p_zero() -> Seq<char> {
    seq!['p', '0']
}

/// The name of the probability of a 1.
pub open spec fn name_p_one() -> Seq<char> {
    seq!['p', '1']
}

/// A probability among the fields is not a number.
pub open spec fn has_bad_probability(fields: Seq<(Seq<char>, Option<Decimal>)>) -> bool {
    exists|i: int|
        0 <= i < fields.len() && ((#[trigger] fields[i]).0 == name_p_zero() || fields[i].0
            == name_p_one()) && fields[i].1 is None
}

/// The number of the last field of that name, or 0 where no field has that name.
pub open spec fn chosen(fields: Seq<(Seq<char>, Option<Decimal>)>, name: Seq<char>) -> Decimal
    decreases fields.len(),
{
    if fields.len() == 0 {
        zero()
    } else if fields.last().0 == name && fields.last().1 is Some {
        fields.last().1->0
    } else {
        chosen(fields.drop_last(), name)
    }
}

/// The prior of one member: its key is the number of the nonce bit, counted from
/// 1, and its fields `p0` and `p1` are the probabilities.
pub open spec fn prior_of(member: MemberView, index: usize) -> Result<NoncePrior, ParseError> {
    if has_bad_probability(member.1) {
        Err(ParseError::Probability(index))
    } else {
        match parsed_unsigned(member.0, usize::MAX as nat) {
            Some(number) if number >= 1 => Ok(
                NoncePrior {
                    nonce_bit: (number - 1) as usize,
                    p_zero: chosen(member.1, name_p_zero()),
                    p_one: chosen(member.1, name_p_one()),
                },
            ),
            _ => Err(ParseError::Index(index)),
        }
    }
}

/// The priors of the members, in order, or the first failure.
pub open spec fn priors_of(members: Seq<MemberView>) -> Result<Seq<NoncePrior>, ParseError>
    decreases members.len(),
{
    if members.len() == 0 {
        Ok(Seq::empty())
    } else {
        match priors_of(members.drop_last()) {
            Ok(priors) => match prior_of(members.last(), (members.len() - 1) as usize) {
                Ok(prior) => Ok(priors.push(prior)),
                Err(e) => Err(e),
            },
            Err(e) => Err(e),
        }
    }
}

/// The first failure stays the answer, whatever follows it.
pub proof fn lemma_priors_of_fails(members: Seq<MemberView>, n: int)
    requires
        0 <= n <= members.len(),
        priors_of(members.take(n)) is Err,
    ensures
        priors_of(members) == priors_of(members.take(n)),
    decreases members.len(),
{
    if n == members.len() {
        assert(members.take(n) =~= members);
    } else {
        assert(members.drop_last().take(n) =~= members.take(n));
        lemma_priors_of_fails(members.drop_last(), n);
    }
}

/// Whether the text is the two characters `p` and `digit`.
fn is_probability_name(text: &str, digit: char) -> (r: bool)
    ensures
        r == (text@ == seq!['p', digit]),
{
    let mut position: u8 = 0;
    for c in it: text.chars()
        invariant
            it.seq() == text@,
            position == if it.index() <= 2 { it.index() } else { 3 },
            it.index() <= 2 ==> text@.take(it.index()) == seq!['p', digit].take(it.index()),
            it.index() > 2 ==> text@.len() > 2,
    {
        let expected = if position == 0 {
            'p'
        } else {
            digit
        };
        if position >= 2 {
            position = 3;
        } else if c != expected {
            assert(text@[it.index()] != seq!['p', digit][it.index()]);
            return false;
        } else {
            assert(text@.take(it.index() + 1) =~= seq!['p', digit].take(it.index() + 1));
            position += 1;
        }
    }
    assert(text@.take(text@.len() as int) =~= text@);
    if position == 2 {
        assert(seq!['p', digit].take(2) =~= seq!['p', digit]);
        true
    } else {
        false
    }
}

/// The prior of one member of the document.
fn select_prior(member: &Member, index: usize) -> (r: Result<NoncePrior, ParseError>)
    ensures
        r == prior_of(member_views(seq![*member])[0], index),
{
    let ghost fields = member_views(seq![*member])[0].1;
    let mut p_zero: Decimal = (true, 0, 0);
    let mut p_one: Decimal = (true, 0, 0);
    let mut i: usize = 0;
    assert(fields.len() == member.1@.len());
    while i < member.1.len()
        invariant
            i <= member.1.len(),
            fields == member_views(seq![*member])[0].1,
            fields.len() == member.1@.len(),
            !has_bad_probability(fields.take(i as int)),
            p_zero == chosen(fields.take(i as int), name_p_zero()),
            p_one == chosen(fields.take(i as int), name_p_one()),
        decreases member.1.len() - i,
    {
        let field = &member.1[i];
        let ghost seen = fields.take(i as int);
        let ghost more = fields.take(i + 1);
        proof {
            assert(more.drop_last() =~= seen);
            assert(more.last() == (field.0@, field.1));
            assert(fields[i as int] == more.last());
        }
        let zero = is_probability_name(field.0.as_str(), '0');
        let one = is_probability_name(field.0.as_str(), '1');
        if zero || one {
            match field.1 {
                Some(number) => {
                    if zero {
                        p_zero = number;
                    } else {
                        p_one = number;
                    }
                },
                None => {
                    assert(has_bad_probability(fields));
                    return Err(ParseError::Probability(index));
                },
            }
        }
        proof {
            if has_bad_probability(more) {
                let bad = choose|n: int|
                    0 <= n < more.len() && ((#[trigger] more[n]).0 == name_p_zero() || more[n].0
                        == name_p_one()) && more[n].1 is None;
                if bad < i {
                    assert(seen[bad] == more[bad]);
                }
            }
        }
        i += 1;
    }
    assert(fields.take(i as int) =~= fields);
    match parse_unsigned(member.0.as_str(), usize::MAX) {
        Some(number) => {
            if number >= 1 {
                Ok(NoncePrior { nonce_bit: number - 1, p_zero, p_one })
            } else {
                Err(ParseError::Index(index))
            }
        },
        None => Err(ParseError::Index(index)),
    }
}

/// Reads the priors from the members of the document: one prior for each member,
/// in order, or the failure of the first member that holds none.
pub fn select_priors(members: &Vec<Member>) -> (r: Result<Vec<NoncePrior>, ParseError>)
    ensures
        match r {
            Ok(priors) => priors_of(member_views(members@)) == Ok::<Seq<NoncePrior>, ParseError>(
                priors@,
            ),
            Err(e) => priors_of(member_views(members@)) == Err::<Seq<NoncePrior>, ParseError>(e),
        },
{
    let mut priors: Vec<NoncePrior> = Vec::new();
    let ghost all = member_views(members@);
    let mut n: usize = 0;
    while n < members.len()
        invariant
            n <= members.len(),
            all == member_views(members@),
            priors_of(all.take(n as int)) == Ok::<Seq<NoncePrior>, ParseError>(priors@),
        decreases members.len() - n,
    {
        let ghost more = all.take(n + 1);
        proof {
            assert(more.drop_last() =~= all.take(n as int));
            assert(more.last() == member_views(seq![members@[n as int]])[0]);
        }
        match select_prior(&members[n], n) {
            Ok(prior) => {
                priors.push(prior);
            },
            Err(e) => {
                proof {
                    lemma_priors_of_fails(all, n as int + 1);
                }
                return Err(e);
            },
        }
        n += 1;
    }
    assert(all.take(n as int) =~= all);
    Ok(priors)
}

/// Reads the priors from the line that holds them: a JSON object that maps the
/// number of each nonce bit, counted from 1, to an object with the probabilities
/// `p0` and `p1`. The priors are those of the members that the parser reads.
pub fn import_nonce_stats_file(line: &str) -> (r: Result<Vec<NoncePrior>, ParseError>)
    ensures
        if !digit_runs_fit(line@) {
            r == Err::<Vec<NoncePrior>, ParseError>(ParseError::Digits)
        } else {
            match json_numbers(line@) {
                None => r == Err::<Vec<NoncePrior>, ParseError>(ParseError::Document),
                Some(members) => match r {
                    Ok(priors) => priors_of(members) == Ok::<Seq<NoncePrior>, ParseError>(priors@),
                    Err(e) => priors_of(members) == Err::<Seq<NoncePrior>, ParseError>(e),
                },
            }
        },
{
    if !check_digit_runs(line) {
        return Err(ParseError::Digits);
    }
    match parse_members(line) {
        Some(members) => select_priors(&members),
        None => Err(ParseError::Document),
    }
}

/// The name of the file that holds the results written at this time, in seconds
/// since the epoch: `experiment04_`, the seconds in decimal, and `.json`.
pub open spec fn results_file_name_of(seconds: u64) -> Seq<char> {
    "experiment04_"@ + decimal_digits(seconds as nat) + ".json"@
}

/// The name of the file for the results written at this time.
pub fn results_file_name(seconds: u64) -> (name: String)
    ensures
        name@ == results_file_name_of(seconds),
{
    let mut name = String::new();
    name.append("experiment04_");
    append_decimal(&mut name, seconds);
    name.append(".json");
    assert(name@ =~= results_file_name_of(seconds));
    name
}

} // verus!
