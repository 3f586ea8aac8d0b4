use crate::dataset::{symmetric, Dataset};
use crate::order::{ordered, sort_target_vector, texts_of};
use crate::set_laws::{law_differences_split_symmetric, law_union_size};
use vstd::prelude::*;

verus! {

/// Why two datasets were not compared.
#[derive(Debug, Clone, Copy, PartialEq, Eq)]
pub enum CompareError {
    /// One of the two datasets holds no record.
    EmptyDataset,
}

/// The five sets that two datasets `a` and `b` give, and how much the second
/// has grown over the first.
#[derive(Debug)]
pub struct Comparison {
    /// The records of `a` or `b`.
    pub union: Dataset,
    /// The records of both.
    pub intersection: Dataset,
    /// The records of exactly one of the two.
    pub symmetric: Dataset,
    /// The records of `a` that `b` lacks.
    pub missing: Dataset,
    /// The records of `b` that `a` lacks.
    pub added: Dataset,
    /// The size of `b` less the size of `a`: negative where `b` is the smaller.
    pub delta: i128,
}

/// Which record lists are to be shown in full.
#[derive(Debug, Clone, Copy, PartialEq, Eq)]
pub struct Flags {
    /// Show what each dataset has alone.
    pub difference: bool,
    /// Show what exactly one of the two holds.
    pub symmetric: bool,
    /// Show what both hold.
    pub common: bool,
    /// Show what either holds.
    pub union: bool,
    /// Show every list.
    pub all: bool,
}

impl Flags {
    /// Whether the two one-sided differences are listed.
    pub fn shows_difference(&self) -> (r: bool)
        ensures
            r == (self.difference || self.all),
    {
        self.difference || self.all
    }

    /// Whether the symmetric difference is listed.
    pub fn shows_symmetric(&self) -> (r: bool)
        ensures
            r == (self.symmetric || self.all),
    {
        self.symmetric || self.all
    }

    /// Whether the intersection is listed.
    pub fn shows_common(&self) -> (r: bool)
        ensures
            r == (self.common || self.all),
    {
        self.common || self.all
    }

    /// Whether the union is listed.
    pub fn shows_union(&self) -> (r: bool)
        ensures
            r == (self.union || self.all),
    {
        self.union || self.all
    }
}

/// One entry of the report: a heading, a count, and the records to list under it.
#[derive(Debug)]
pub struct ResultBlock<'a> {
    /// The heading.
    pub header: String,
    /// How many records the set holds.
    pub count: usize,
    /// The records to list, in display order; none where the list is not asked for.
    pub records: Vec<&'a String>,
}

/// Compares two datasets. Neither may be empty: with an empty one nothing is
/// computed and the error says so.
pub fn compare(a: &Dataset, b: &Dataset) -> (r: Result<Comparison, CompareError>)
    ensures
        r is Err <==> a@.len() == 0 || b@.len() == 0,
        r is Err ==> r->Err_0 == CompareError::EmptyDataset,
        r is Ok ==> ({
            let c = r->Ok_0;
            &&& c.union@ == a@.union(b@)
            &&& c.intersection@ == a@.intersect(b@)
            &&& c.symmetric@ == symmetric(a@, b@)
            &&& c.missing@ == a@.difference(b@)
            &&& c.added@ == b@.difference(a@)
            &&& c.delta == b@.len() - a@.len()
            &&& c.union@.len() == a@.len() + b@.len() - c.intersection@.len()
            &&& c.symmetric@.len() == c.missing@.len() + c.added@.len()
        }),
{
    if a.is_empty() || b.is_empty() {
        return Err(CompareError::EmptyDataset);
    }
    let na: usize = a.len();
    let nb: usize = b.len();
    proof {
        law_union_size(a@, b@);
        law_differences_split_symmetric(a@, b@);
    }
    Ok(
        Comparison {
            union: a.union(b),
            intersection: a.intersection(b),
            symmetric: a.symmetric_difference(b),
            missing: a.difference(b),
            added: b.difference(a),
            delta: nb as i128 - na as i128,
        },
    )
}

/// One entry of the report for the set `dataset`: its heading, its size,
/// and, where `print_flag` asks for the list, its records in display order.
pub fn print_results<'a>(header: &str, dataset: &[&'a String], print_flag: bool) -> (block:
    ResultBlock<'a>)
    ensures
        block.header@ == header@,
        block.count == dataset@.len(),
        texts_of(block.records@) == if print_flag {
            ordered(texts_of(dataset@))
        } else {
            Seq::<Seq<char>>::empty()
        },
{
    let records: Vec<&'a String> = if print_flag {
        sort_target_vector(dataset)
    } else {
        Vec::new()
    };
    proof {
        if !print_flag {
            assert(texts_of(records@) =~= Seq::<Seq<char>>::empty());
        }
    }
    ResultBlock { header: header.to_owned(), count: dataset.len(), records }
}

} // verus!
