//! A stand-in for a language model, for runs without one.
//!
//! It answers a decision prompt as a representative household would: it reads unemployment and
//! inflation off the prompt, is the more willing to work the higher unemployment is, and spends the
//! less the higher unemployment or inflation is. The answer is a function of the prompt.

use vstd::prelude::*;

use crate::number::{clamp, clamped, Number};
use crate::text::{chars_of, end_of_run, find, first_from, run_end};

verus! {

/// The name under which the stand-in answers.
pub const MOCK_MODEL: &'static str = "mock-econagent";

/// What marks a decision prompt.
pub const JSON_REQUEST: &'static str = "Answer with JSON only";

/// What the stand-in has to say on a quarter.
pub const MOCK_REFLECTION: &'static str =
    "The economy felt stable; I will keep working and consume moderately.";

/// The end of the number that starts at a position; a minus sign may stand before it.
pub open spec fn number_end(s: Seq<char>, start: int) -> int {
    if start < s.len() && s[start] == '-' {
        run_end(s, start + 1)
    } else {
        run_end(s, start)
    }
}

/// The number that stands behind the first occurrence of a marker.
pub open spec fn marked_number<R: Number>(prompt: Seq<char>, marker: Seq<char>) -> Option<R> {
    match first_from(prompt, marker, 0) {
        Some(i) => {
            let start = i + marker.len();
            R::parsed(prompt.subrange(start, number_end(prompt, start)))
        },
        None => None,
    }
}

pub fn parse_marker<R: Number>(prompt: &str, marker: &str) -> (r: Option<R>)
    ensures
        r == marked_number::<R>(prompt@, marker@),
{
    let v = chars_of(prompt);
    let m = chars_of(marker);
    match find(&v, &m) {
        Some(i) => {
            let start: usize = i + m.len();
            let signed = start < v.len() && v[start] == '-';
            let end = end_of_run(
                &v,
                if signed {
                    start + 1
                } else {
                    start
                },
            );
            R::parse(prompt.substring_char(start, end))
        },
        None => None,
    }
}

/// The willingness to work at a rate of unemployment.
pub open spec fn mock_work<R: Number>(unemployment: R) -> R {
    clamped(R::lit(78, 2).add(R::lit(40, 2).mul(unemployment)), R::lit(0, 0), R::lit(1, 0))
}

/// The share to consume at a rate of unemployment and of inflation.
pub open spec fn mock_consume<R: Number>(unemployment: R, inflation: R) -> R {
    clamped(
        R::lit(30, 2).sub(R::lit(50, 2).mul(unemployment)).sub(R::lit(60, 2).mul(inflation)),
        R::lit(5, 2),
        R::lit(1, 0),
    )
}

/// A decision as JSON.
pub open spec fn decision_json<R: Number>(work: R, consume: R) -> Seq<char> {
    "{\"work\": "@ + work.text(4) + ", \"consume\": "@ + consume.text(4) + "}"@
}

/// A number, or another where there is none.
pub open spec fn number_or<R>(x: Option<R>, other: R) -> R {
    match x {
        Some(x) => x,
        None => other,
    }
}

/// The rate of unemployment that a prompt gives.
pub open spec fn prompt_unemployment<R: Number>(prompt: Seq<char>) -> R {
    number_or(marked_number::<R>(prompt, "Unemployment rate: "@), R::lit(1, 1))
}

/// The rate of inflation that a prompt gives.
pub open spec fn prompt_inflation<R: Number>(prompt: Seq<char>) -> R {
    number_or(marked_number::<R>(prompt, "Annual inflation: "@), R::lit(0, 0))
}

/// The answer of the stand-in to a prompt.
pub open spec fn mock_answer<R: Number>(prompt: Seq<char>) -> Seq<char> {
    if first_from(prompt, JSON_REQUEST@, 0) is None {
        MOCK_REFLECTION@
    } else {
        let unemployment = prompt_unemployment::<R>(prompt);
        let inflation = prompt_inflation::<R>(prompt);
        decision_json(mock_work(unemployment), mock_consume(unemployment, inflation))
    }
}

/// Answers a prompt.
pub fn mock_reply<R: Number>(prompt: &str) -> (r: String)
    ensures
        r@ == mock_answer::<R>(prompt@),
{
    if find(&chars_of(prompt), &chars_of(JSON_REQUEST)).is_none() {
        return MOCK_REFLECTION.to_owned();
    }
    let u = match parse_marker::<R>(prompt, "Unemployment rate: ") {
        Some(x) => x,
        None => R::decimal(1, 1),
    };
    let infl = match parse_marker::<R>(prompt, "Annual inflation: ") {
        Some(x) => x,
        None => R::decimal(0, 0),
    };
    let work = clamp(
        R::decimal(78, 2).plus(R::decimal(40, 2).times(u)),
        R::decimal(0, 0),
        R::decimal(1, 0),
    );
    let consume = clamp(
        R::decimal(30, 2).minus(R::decimal(50, 2).times(u)).minus(R::decimal(60, 2).times(infl)),
        R::decimal(5, 2),
        R::decimal(1, 0),
    );
    let mut s = "{\"work\": ".to_owned();
    s.append(work.to_fixed(4).as_str());
    s.append(", \"consume\": ");
    s.append(consume.to_fixed(4).as_str());
    s.append("}");
    s
}

} // verus!
