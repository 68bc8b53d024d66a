//! Wire shapes of the Numaflow resources, restricted to the fields that are
//! read, and their conversion into the domain, validating on the way. The
//! JSON itself is read elsewhere; a field whose contents are not modelled is
//! held as whether it is present.

use vstd::prelude::*;

use crate::text::{chars_of, push_str};

pub mod isb;
pub mod monovertex;
pub mod pipeline;
pub mod pod;

verus! {

/// Whether `s` is the text `lit`.
pub fn is_text(s: &String, lit: &str) -> (b: bool)
    ensures
        b == (s@ == lit@),
{
    let a = chars_of(s.as_str());
    let b = chars_of(lit);
    crate::text::same(&a, &b)
}

/// Whether the optional text is `lit`.
pub open spec fn opt_is(s: Option<String>, lit: Seq<char>) -> bool {
    match s {
        Some(t) => t@ == lit,
        None => false,
    }
}

/// A resource condition as the domain reads it: its type, whether its
/// status is `True`, and why.
#[derive(Debug, Clone, PartialEq, Eq)]
pub struct Condition {
    pub kind: String,
    pub ok: bool,
    pub reason: Option<String>,
    pub message: Option<String>,
}

/// The phase a resource is asked to be in.
#[derive(Debug, Clone, Copy, PartialEq, Eq, Structural)]
pub enum DesiredPhase {
    Running,
    Paused,
}

/// Why a wire object is not a valid domain value.
#[derive(Debug, Clone, PartialEq, Eq)]
pub enum DtoError {
    /// The vertex name is not a valid name.
    VertexName(String, crate::model::NameError),
    /// A vertex asks for no partitions.
    ZeroPartitions(String),
    /// A vertex sets none, or more than one, of source, sink and udf.
    NotOneKind(String),
    /// An edge's end is not a valid name: the end, `from` or `to`, and the text.
    EdgeEnd(bool, String, crate::model::NameError),
    /// A tag condition names an operator other than `and`, `or`, `not`.
    TagOperator(String),
    /// An edge names a full-buffer policy other than `retryUntilSuccess` and
    /// `discardLatest`.
    OnFull(String),
    /// The desired phase is neither `Running` nor `Paused`.
    DesiredPhase(String),
    /// The resume-strategy annotation is neither `slow` nor `fast`.
    ResumeStrategy(String),
    /// The vertices and edges do not make a topology.
    Topology(crate::model::TopologyError),
}

/// The desired phase a wire field asks for: `Running` when absent.
pub open spec fn desired_spec(p: Option<String>) -> Option<DesiredPhase> {
    match p {
        None => Some(DesiredPhase::Running),
        Some(t) => if t@ == "Paused"@ {
            Some(DesiredPhase::Paused)
        } else if t@ == "Running"@ {
            Some(DesiredPhase::Running)
        } else {
            None
        },
    }
}

/// The desired phase, or the error naming the unknown one.
pub fn desired_from(p: &Option<String>) -> (r: Result<DesiredPhase, DtoError>)
    ensures
        match desired_spec(*p) {
            Some(d) => r == Ok::<DesiredPhase, DtoError>(d),
            None => r matches Err(DtoError::DesiredPhase(t)) && Some(t) == *p,
        },
{
    match p {
        None => Ok(DesiredPhase::Running),
        Some(t) => {
            if is_text(t, "Paused") {
                Ok(DesiredPhase::Paused)
            } else if is_text(t, "Running") {
                Ok(DesiredPhase::Running)
            } else {
                Err(DtoError::DesiredPhase(t.clone()))
            }
        },
    }
}

/// What is wrong with a name, in words.
pub open spec fn name_problem(e: crate::model::NameError) -> Seq<char> {
    match e {
        crate::model::NameError::Empty => "a name must not be empty"@,
        crate::model::NameError::TooLong => "a name must be at most 63 characters"@,
        crate::model::NameError::BadChar => "a name holds only lower-case letters, digits and `-`"@,
        crate::model::NameError::BadEdge => "a name starts and ends with a letter or digit"@,
    }
}

fn name_problem_text(e: crate::model::NameError) -> (s: &'static str)
    ensures
        s@ == name_problem(e),
{
    match e {
        crate::model::NameError::Empty => "a name must not be empty",
        crate::model::NameError::TooLong => "a name must be at most 63 characters",
        crate::model::NameError::BadChar => "a name holds only lower-case letters, digits and `-`",
        crate::model::NameError::BadEdge => "a name starts and ends with a letter or digit",
    }
}

impl DtoError {
    /// The reason, as a sentence naming the offending value.
    pub open spec fn reason_spec(self) -> Seq<char> {
        match self {
            DtoError::VertexName(n, e) => "vertex `"@ + n@ + "`: "@ + name_problem(e),
            DtoError::ZeroPartitions(n) => "vertex `"@ + n@ + "` partitions must be at least 1"@,
            DtoError::NotOneKind(n) => "vertex `"@ + n@ + "` must set exactly one of source, sink or udf"@,
            DtoError::EdgeEnd(from, n, e) => (if from { "edge from `"@ } else { "edge to `"@ }) + n@ + "`: "@
                + name_problem(e),
            DtoError::TagOperator(o) => "unknown tag operator `"@ + o@ + "`"@,
            DtoError::OnFull(o) => "unknown onFull policy `"@ + o@ + "`"@,
            DtoError::DesiredPhase(o) => "unknown desired phase `"@ + o@ + "`"@,
            DtoError::ResumeStrategy(o) => "unknown resume strategy `"@ + o@ + "`"@,
            DtoError::Topology(_) => "the vertices and edges do not make a topology"@,
        }
    }

    pub fn reason(&self) -> (s: String)
        ensures
            s@ == self.reason_spec(),
    {
        let mut s = String::new();
        match self {
            DtoError::VertexName(n, e) => {
                push_str(&mut s, "vertex `");
                push_str(&mut s, n.as_str());
                push_str(&mut s, "`: ");
                push_str(&mut s, name_problem_text(*e));
            },
            DtoError::ZeroPartitions(n) => {
                push_str(&mut s, "vertex `");
                push_str(&mut s, n.as_str());
                push_str(&mut s, "` partitions must be at least 1");
            },
            DtoError::NotOneKind(n) => {
                push_str(&mut s, "vertex `");
                push_str(&mut s, n.as_str());
                push_str(&mut s, "` must set exactly one of source, sink or udf");
            },
            DtoError::EdgeEnd(from, n, e) => {
                push_str(&mut s, if *from { "edge from `" } else { "edge to `" });
                push_str(&mut s, n.as_str());
                push_str(&mut s, "`: ");
                push_str(&mut s, name_problem_text(*e));
            },
            DtoError::TagOperator(o) => {
                push_str(&mut s, "unknown tag operator `");
                push_str(&mut s, o.as_str());
                push_str(&mut s, "`");
            },
            DtoError::OnFull(o) => {
                push_str(&mut s, "unknown onFull policy `");
                push_str(&mut s, o.as_str());
                push_str(&mut s, "`");
            },
            DtoError::DesiredPhase(o) => {
                push_str(&mut s, "unknown desired phase `");
                push_str(&mut s, o.as_str());
                push_str(&mut s, "`");
            },
            DtoError::ResumeStrategy(o) => {
                push_str(&mut s, "unknown resume strategy `");
                push_str(&mut s, o.as_str());
                push_str(&mut s, "`");
            },
            DtoError::Topology(_) => {
                push_str(&mut s, "the vertices and edges do not make a topology");
            },
        }
        proof {
            assert(s@ =~= self.reason_spec());
        }
        s
    }
}

} // verus!
