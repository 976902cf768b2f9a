//! The names of colours, read from a table with one colour per row: its key,
//! its name, its hex notation, and red, green and blue as decimal numbers.

use crate::color::Rgb;
use std::collections::HashMap;
use vstd::prelude::*;

verus! {

/// `csv::Error`, what reading a table fails with. Nothing is claimed of what
/// is inside it.
#[verifier::external_type_specification]
#[verifier::external_body]
pub struct ExCsvError(csv::Error);

/// The rows behind the header row of the comma-separated table `data`, each a
/// list of fields, as `csv::Reader::records` reads them with the settings that
/// `csv::Reader::from_reader` gives; nothing where it fails on one.
pub uninterp spec fn csv_records(data: Seq<u8>) -> Option<Seq<Seq<Seq<char>>>>;

/// Why a table of colour names was not taken.
#[derive(Clone, Copy, Debug, PartialEq, Eq)]
pub enum NamesError {
    /// The table is no well-formed comma-separated text.
    Malformed,
    /// The row has fewer than six fields.
    MissingField { row: usize },
    /// Red, green or blue of the row is no number from 0 to 255.
    BadChannel { row: usize },
}

/// A colour and its name.
pub type Named = (Rgb<u8>, Seq<char>);

/// Whether `c` is a decimal digit.
pub open spec fn is_digit(c: char) -> bool {
    '0' <= c && c <= '9'
}

/// The number that a run of decimal digits stands for.
pub open spec fn number(digits: Seq<char>) -> int
    decreases digits.len(),
{
    if digits.len() == 0 {
        0
    } else {
        number(digits.drop_last()) * 10 + ((digits.last() as u32) - ('0' as u32))
    }
}

/// Every one of `digits` is a decimal digit.
pub open spec fn all_digits(digits: Seq<char>) -> bool {
    forall|i: int| 0 <= i < digits.len() ==> is_digit(#[trigger] digits[i])
}

/// The text without the `+` that it may begin with.
pub open spec fn unsigned(text: Seq<char>) -> Seq<char> {
    if text.len() > 0 && text[0] == '+' {
        text.skip(1)
    } else {
        text
    }
}

/// The channel value that `text` stands for: decimal digits, if one likes
/// behind a `+`, that make a number up to 255.
pub open spec fn channel(text: Seq<char>) -> Option<u8> {
    let digits = unsigned(text);
    if digits.len() > 0 && all_digits(digits) && number(digits) <= 255 {
        Some(number(digits) as u8)
    } else {
        None
    }
}

/// The colour and the name that a row stands for: the name is its second
/// field, red, green and blue are its fourth to sixth.
pub open spec fn named(row: Seq<Seq<char>>, at: usize) -> Result<Named, NamesError> {
    if row.len() < 6 {
        Err(NamesError::MissingField { row: at })
    } else {
        match (channel(row[3]), channel(row[4]), channel(row[5])) {
            (Some(r), Some(g), Some(b)) => Ok((Rgb([r, g, b]), row[1])),
            _ => Err(NamesError::BadChannel { row: at }),
        }
    }
}

/// The colours of a list of named colours.
pub open spec fn named_colors(names: Seq<Named>) -> Seq<Rgb<u8>> {
    Seq::new(names.len(), |i: int| names[i].0)
}

/// The names with one more: a colour that has a name keeps it.
pub open spec fn register(names: Seq<Named>, entry: Named) -> Seq<Named> {
    if named_colors(names).contains(entry.0) {
        names
    } else {
        names.push(entry)
    }
}

/// The named colours that the rows stand for, in the order of the rows, or
/// what is wrong with the first row that stands for none.
pub open spec fn names_of(rows: Seq<Seq<Seq<char>>>) -> Result<Seq<Named>, NamesError>
    decreases rows.len(),
{
    if rows.len() == 0 {
        Ok(Seq::empty())
    } else {
        match names_of(rows.drop_last()) {
            Err(e) => Err(e),
            Ok(names) => match named(rows.last(), (rows.len() - 1) as usize) {
                Err(e) => Err(e),
                Ok(entry) => Ok(register(names, entry)),
            },
        }
    }
}

/// The name that `names` holds for `c`, or the empty name.
pub open spec fn name_of(names: Seq<Named>, c: Rgb<u8>) -> Seq<char> {
    if named_colors(names).contains(c) {
        names[named_colors(names).index_of(c)].1
    } else {
        Seq::empty()
    }
}

/// A longer run of digits stands for no smaller number.
proof fn lemma_number_grows(digits: Seq<char>, upto: int)
    requires
        0 <= upto <= digits.len(),
        all_digits(digits),
    ensures
        0 <= number(digits.take(upto)) <= number(digits),
    decreases digits.len() - upto,
{
    if upto < digits.len() {
        lemma_number_grows(digits, upto + 1);
        assert(digits.take(upto + 1).drop_last() =~= digits.take(upto));
        lemma_number_nonnegative(digits.take(upto));
    } else {
        assert(digits.take(upto) =~= digits);
        lemma_number_nonnegative(digits);
    }
}

proof fn lemma_number_nonnegative(digits: Seq<char>)
    requires
        all_digits(digits),
    ensures
        0 <= number(digits),
    decreases digits.len(),
{
    if digits.len() > 0 {
        lemma_number_nonnegative(digits.drop_last());
    }
}

/// Rows behind a row that stands for no colour change nothing.
proof fn lemma_error_stays(rows: Seq<Seq<Seq<char>>>, upto: int)
    requires
        0 <= upto <= rows.len(),
        names_of(rows.take(upto)) is Err,
    ensures
        names_of(rows) == names_of(rows.take(upto)),
    decreases rows.len(),
{
    if upto < rows.len() {
        assert(rows.drop_last().take(upto) =~= rows.take(upto));
        lemma_error_stays(rows.drop_last(), upto);
    } else {
        assert(rows.take(upto) =~= rows);
    }
}

/// `csv::Reader::from_reader` on `data` and `csv::Reader::records` on what it
/// gives: the rows behind the header row, or the error of the first row that
/// cannot be read.
#[verifier::external_body]
fn read_records(data: &[u8]) -> (out: Result<Vec<Vec<String>>, csv::Error>)
    ensures
        out matches Ok(rows) ==> csv_records(data@) == Some(rows.deep_view()),
        out is Err ==> csv_records(data@).is_none(),
{
    let mut rows = Vec::new();
    for record in csv::Reader::from_reader(data).records() {
        rows.push(record?.iter().map(|field| field.to_string()).collect());
    }
    Ok(rows)
}

/// The channel value that `text` stands for.
pub fn parse_channel(text: &str) -> (value: Option<u8>)
    ensures
        value == channel(text@),
{
    let n = text.unicode_len();
    let start: usize = if n > 0 && text.get_char(0) == '+' {
        1
    } else {
        0
    };
    if start >= n {
        return None;
    }
    let ghost digits = unsigned(text@);
    assert(text@.skip(0) =~= text@);
    let mut acc: u32 = 0;
    let mut i: usize = start;
    assert(digits.take(0) =~= Seq::<char>::empty());
    while i < n
        invariant
            start <= i <= n,
            start <= 1,
            n == text@.len(),
            digits == unsigned(text@),
            digits.len() == n - start,
            forall|j: int| 0 <= j < digits.len() ==> digits[j] == text@[j + start],
            all_digits(digits.take(i - start)),
            acc == number(digits.take(i - start)),
            acc <= 255,
        decreases n - i,
    {
        let c = text.get_char(i);
        assert(digits[i - start] == c);
        if !(c >= '0' && c <= '9') {
            assert(!is_digit(digits[i - start]));
            return None;
        }
        let d: u32 = (c as u32) - ('0' as u32);
        assert(digits.take(i - start + 1).drop_last() =~= digits.take(i - start));
        assert(digits.take(i - start + 1).last() == c);
        acc = acc * 10 + d;
        assert(acc == number(digits.take(i - start + 1)));
        assert(all_digits(digits.take(i - start + 1))) by {
            assert forall|j: int| 0 <= j < i - start + 1 implies is_digit(
                #[trigger] digits.take(i - start + 1)[j],
            ) by {
                if j < i - start {
                    assert(digits.take(i - start)[j] == digits[j]);
                }
            }
        }
        if acc > 255 {
            proof {
                if all_digits(digits) {
                    lemma_number_grows(digits, i - start + 1);
                }
            }
            return None;
        }
        i += 1;
    }
    assert(digits.take(n - start) =~= digits);
    Some(acc as u8)
}

/// The names of colours.
#[derive(Clone, Debug)]
pub struct ColorNames {
    names: Vec<(Rgb<u8>, String)>,
    index: HashMap<u32, usize>,
}

impl View for ColorNames {
    type V = Seq<Named>;

    /// The colours with their names, in the order in which they were taken.
    closed spec fn view(&self) -> Seq<Named> {
        Seq::new(self.names@.len(), |i: int| (self.names@[i].0, self.names@[i].1@))
    }
}

impl ColorNames {
    /// No colour has two names, and the index finds each name by its colour.
    pub closed spec fn wf(&self) -> bool {
        &&& named_colors(self@).no_duplicates()
        &&& forall|i: int|
            0 <= i < self.names.len() ==> #[trigger] self.index@.contains_key(
                self.names[i].0.spec_key() as u32,
            ) && self.index@[self.names[i].0.spec_key() as u32] == i
        &&& forall|k: u32|
            self.index@.contains_key(k) ==> self.index@[k] < self.names.len()
                && self.names[self.index@[k] as int].0.spec_key() == k
    }

    /// No names.
    pub fn new() -> (names: ColorNames)
        ensures
            names.wf(),
            names@ == Seq::<Named>::empty(),
    {
        let names = ColorNames { names: Vec::new(), index: HashMap::new() };
        assert(names@ =~= Seq::<Named>::empty());
        names
    }

    /// The number of colours that have a name.
    pub fn len(&self) -> (n: usize)
        ensures
            n == self@.len(),
    {
        self.names.len()
    }

    /// Whether `c` has a name.
    fn knows(&self, c: Rgb<u8>) -> (at: Option<usize>)
        requires
            self.wf(),
        ensures
            at.is_some() == named_colors(self@).contains(c),
            at matches Some(i) ==> i < self@.len() && self@[i as int].0 == c && i
                == named_colors(self@).index_of(c),
    {
        broadcast use vstd::std_specs::hash::group_hash_axioms;

        let key = c.key();
        proof {
            assert forall|i: int| 0 <= i < self.names.len() implies (self.names[i].0 == c
                <==> self.names[i].0.spec_key() == key) by {
                self.names[i].0.lemma_key_injective(c);
            }
            c.lemma_key_injective(c);
            if named_colors(self@).contains(c) {
                let k = named_colors(self@).index_of(c);
                assert(named_colors(self@)[k] == c);
                assert(self.index@.contains_key(self.names[k].0.spec_key() as u32));
            }
        }
        match self.index.get(&key) {
            Some(at) => {
                proof {
                    assert(named_colors(self@)[*at as int] == c);
                }
                Some(*at)
            },
            None => None,
        }
    }

    /// Gives `c` the name `name`, unless it has one.
    pub fn register(&mut self, c: Rgb<u8>, name: String)
        requires
            old(self).wf(),
        ensures
            final(self).wf(),
            final(self)@ == register(old(self)@, (c, name@)),
    {
        broadcast use vstd::std_specs::hash::group_hash_axioms;

        if self.knows(c).is_some() {
            return ;
        }
        let ghost before = self.names@;
        let ghost seen = self@;
        let key = c.key();
        proof {
            assert forall|i: int| 0 <= i < before.len() implies before[i].0.spec_key() != key by {
                before[i].0.lemma_key_injective(c);
                assert(named_colors(seen)[i] == before[i].0);
            }
            c.lemma_key_injective(c);
        }
        let at = self.names.len();
        self.names.push((c, name));
        self.index.insert(key, at);
        proof {
            assert(self@ =~= seen.push((c, name@)));
            assert(named_colors(self@) =~= named_colors(seen).push(c));
            assert forall|i: int| 0 <= i < self.names.len() implies #[trigger]
                self.index@.contains_key(self.names[i].0.spec_key() as u32)
                && self.index@[self.names[i].0.spec_key() as u32] == i by {
                if i < before.len() {
                    assert(old(self).index@.contains_key(before[i].0.spec_key() as u32));
                }
            }
        }
    }

    /// The names that the rows of a table stand for, or what is wrong with the
    /// first row that stands for none.
    pub fn from_records(rows: &Vec<Vec<String>>) -> (out: Result<ColorNames, NamesError>)
        ensures
            match names_of(rows.deep_view()) {
                Ok(names) => out matches Ok(taken) && taken.wf() && taken@ == names,
                Err(e) => out matches Err(found) && found == e,
            },
    {
        let ghost table = rows.deep_view();
        let mut names = ColorNames::new();
        let mut i: usize = 0;
        assert(table.take(0) =~= Seq::<Seq<Seq<char>>>::empty());
        while i < rows.len()
            invariant
                i <= rows.len(),
                table == rows.deep_view(),
                names.wf(),
                names_of(table.take(i as int)) == Ok::<Seq<Named>, NamesError>(names@),
            decreases rows.len() - i,
        {
            let row = &rows[i];
            proof {
                assert(table.take(i + 1).drop_last() =~= table.take(i as int));
                assert(table.take(i + 1).last() == table[i as int]);
                assert(table[i as int] == row.deep_view());
                assert(table[i as int].len() == row@.len());
                assert forall|j: int| 0 <= j < row@.len() implies table[i as int][j] == row@[j]@ by {}
            }
            if row.len() < 6 {
                proof {
                    lemma_error_stays(table, i + 1);
                }
                return Err(NamesError::MissingField { row: i });
            }
            let r = parse_channel(row[3].as_str());
            let g = parse_channel(row[4].as_str());
            let b = parse_channel(row[5].as_str());
            match (r, g, b) {
                (Some(r), Some(g), Some(b)) => {
                    names.register(Rgb([r, g, b]), row[1].clone());
                },
                _ => {
                    proof {
                        lemma_error_stays(table, i + 1);
                    }
                    return Err(NamesError::BadChannel { row: i });
                },
            }
            i += 1;
        }
        assert(table.take(i as int) =~= table);
        Ok(names)
    }

    /// The names that the comma-separated table `data` holds.
    pub fn load(data: &[u8]) -> (out: Result<ColorNames, NamesError>)
        ensures
            match csv_records(data@) {
                None => out matches Err(found) && found == NamesError::Malformed,
                Some(rows) => match names_of(rows) {
                    Ok(names) => out matches Ok(taken) && taken.wf() && taken@ == names,
                    Err(e) => out matches Err(found) && found == e,
                },
            },
    {
        match read_records(data) {
            Ok(rows) => Self::from_records(&rows),
            Err(_) => Err(NamesError::Malformed),
        }
    }

    /// The name of `color`; the empty name where it has none.
    pub fn get_color_name(&self, color: &Rgb<u8>) -> (name: Option<String>)
        requires
            self.wf(),
        ensures
            name matches Some(text) && text@ == name_of(self@, *color),
    {
        match self.knows(*color) {
            Some(at) => Some(self.names[at].1.clone()),
            None => Some(String::new()),
        }
    }
}

} // verus!
