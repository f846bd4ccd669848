//! Batch fan-out: applies a formatter independently to every element of a
//! collection, preserving its length and order.  Small batches run
//! sequentially; larger ones go through a parallel map whose ordered
//! collection is trusted.

use vstd::prelude::*;
use rayon::iter::IntoParallelRefIterator;
use rayon::iter::ParallelIterator;
use crate::canon::PREC_LIMIT;
use crate::number::MAX_INPUT;
use crate::number::intcomma;
use crate::number::intcomma_spec;
use crate::number::intword;
use crate::number::intword_spec;
use crate::filesize::naturalsize;
use crate::filesize::naturalsize_spec;
use crate::format_utils::format_spec_prec;

verus! {

/// Below this many elements the fan-out runs sequentially: dispatch
/// overhead would exceed the cost of the formatting itself.
pub const PAR_THRESHOLD: usize = 1024;

/// Applies the grouped-digit formatter to every element in parallel.
///
/// Relies on rayon's parallel iterator over a slice and its ordered
/// `collect` into a vector: an indexed parallel iterator places each mapped
/// result at its input's position, whichever worker produced it.  Each
/// element is produced by the verified [`intcomma`].
#[verifier::external_body]
fn intcomma_map_par(values: &Vec<String>, ndigits: Option<usize>) -> (r: Vec<String>)
    requires
        forall|i: int| 0 <= i < values@.len() ==> values@[i]@.len() <= MAX_INPUT,
        ndigits is Some ==> ndigits.unwrap() <= PREC_LIMIT,
    ensures
        r@.len() == values@.len(),
        forall|i: int| 0 <= i < values@.len() ==> r@[i]@ == intcomma_spec(values@[i]@, ndigits),
{
    values.par_iter().map(|v| intcomma(v.as_str(), ndigits)).collect()
}

/// Applies the word-scale formatter to every element in parallel.
///
/// Relies on rayon's parallel iterator over a slice and its ordered
/// `collect` into a vector, as above; each element is produced by the
/// verified [`intword`].
#[verifier::external_body]
fn intword_map_par(values: &Vec<String>, format: &str) -> (r: Vec<String>)
    requires
        forall|i: int| 0 <= i < values@.len() ==> values@[i]@.len() <= MAX_INPUT,
    ensures
        r@.len() == values@.len(),
        forall|i: int|
            0 <= i < values@.len() ==> r@[i]@ == intword_spec(
                values@[i]@,
                format_spec_prec(format@),
            ),
{
    values.par_iter().map(|v| intword(v.as_str(), format)).collect()
}

/// Applies the byte-size formatter to every element in parallel.
///
/// Relies on rayon's parallel iterator over a slice and its ordered
/// `collect` into a vector, as above; each element is produced by the
/// verified [`naturalsize`].
#[verifier::external_body]
fn naturalsize_map_par(values: &Vec<String>, binary: bool, gnu: bool, format: &str) -> (r: Vec<
    String,
>)
    requires
        forall|i: int| 0 <= i < values@.len() ==> values@[i]@.len() <= MAX_INPUT,
    ensures
        r@.len() == values@.len(),
        forall|i: int|
            0 <= i < values@.len() ==> r@[i]@ == naturalsize_spec(
                values@[i]@,
                binary,
                gnu,
                format_spec_prec(format@),
            ),
{
    values.par_iter().map(|v| naturalsize(v.as_str(), binary, gnu, format)).collect()
}

/// `intcomma` over a whole collection: the output has the input's length,
/// and position `i` of the output is the formatting of position `i` of the
/// input.
pub fn intcomma_seq(values: &Vec<String>, ndigits: Option<usize>) -> (r: Vec<String>)
    requires
        forall|i: int| 0 <= i < values@.len() ==> values@[i]@.len() <= MAX_INPUT,
        ndigits is Some ==> ndigits.unwrap() <= PREC_LIMIT,
    ensures
        r@.len() == values@.len(),
        forall|i: int| 0 <= i < values@.len() ==> r@[i]@ == intcomma_spec(values@[i]@, ndigits),
{
    if values.len() >= PAR_THRESHOLD {
        return intcomma_map_par(values, ndigits);
    }
    let n = values.len();
    let mut r: Vec<String> = Vec::new();
    let mut i: usize = 0;
    while i < n
        invariant
            n == values@.len(),
            i <= n,
            r@.len() == i,
            forall|j: int| 0 <= j < values@.len() ==> values@[j]@.len() <= MAX_INPUT,
            ndigits is Some ==> ndigits.unwrap() <= PREC_LIMIT,
            forall|j: int| 0 <= j < i ==> r@[j]@ == intcomma_spec(values@[j]@, ndigits),
        decreases n - i,
    {
        let s = intcomma(values[i].as_str(), ndigits);
        r.push(s);
        i = i + 1;
    }
    r
}

/// `intword` over a whole collection, order and length preserved.
pub fn intword_seq(values: &Vec<String>, format: &str) -> (r: Vec<String>)
    requires
        forall|i: int| 0 <= i < values@.len() ==> values@[i]@.len() <= MAX_INPUT,
    ensures
        r@.len() == values@.len(),
        forall|i: int|
            0 <= i < values@.len() ==> r@[i]@ == intword_spec(
                values@[i]@,
                format_spec_prec(format@),
            ),
{
    if values.len() >= PAR_THRESHOLD {
        return intword_map_par(values, format);
    }
    let n = values.len();
    let mut r: Vec<String> = Vec::new();
    let mut i: usize = 0;
    while i < n
        invariant
            n == values@.len(),
            i <= n,
            r@.len() == i,
            forall|j: int| 0 <= j < values@.len() ==> values@[j]@.len() <= MAX_INPUT,
            forall|j: int|
                0 <= j < i ==> r@[j]@ == intword_spec(values@[j]@, format_spec_prec(format@)),
        decreases n - i,
    {
        let s = intword(values[i].as_str(), format);
        r.push(s);
        i = i + 1;
    }
    r
}

/// `naturalsize` over a whole collection, order and length preserved.
pub fn naturalsize_seq(values: &Vec<String>, binary: bool, gnu: bool, format: &str) -> (r: Vec<
    String,
>)
    requires
        forall|i: int| 0 <= i < values@.len() ==> values@[i]@.len() <= MAX_INPUT,
    ensures
        r@.len() == values@.len(),
        forall|i: int|
            0 <= i < values@.len() ==> r@[i]@ == naturalsize_spec(
                values@[i]@,
                binary,
                gnu,
                format_spec_prec(format@),
            ),
{
    if values.len() >= PAR_THRESHOLD {
        return naturalsize_map_par(values, binary, gnu, format);
    }
    let n = values.len();
    let mut r: Vec<String> = Vec::new();
    let mut i: usize = 0;
    while i < n
        invariant
            n == values@.len(),
            i <= n,
            r@.len() == i,
            forall|j: int| 0 <= j < values@.len() ==> values@[j]@.len() <= MAX_INPUT,
            forall|j: int|
                0 <= j < i ==> r@[j]@ == naturalsize_spec(
                    values@[j]@,
                    binary,
                    gnu,
                    format_spec_prec(format@),
                ),
        decreases n - i,
    {
        let s = naturalsize(values[i].as_str(), binary, gnu, format);
        r.push(s);
        i = i + 1;
    }
    r
}

} // verus!
