use vstd::prelude::*;
use crate::decimal::Decimal;

verus! {

/// A target token of an instruction: a qubit, a qubit measured with an
/// inverted record bit, or a back-reference into the measurement record.
#[derive(Debug, Clone, Copy, PartialEq)]
pub enum StimTarget {
    Qubit(u32),
    QubitInv(u32),
    Rec(i32),
}

/// A parsed instruction: a named operation with arguments and targets, or a
/// counted repetition of a block.
#[derive(Debug, PartialEq)]
pub enum StimInstr {
    Op { name: String, tag: Option<String>, args: Vec<Decimal>, targets: Vec<StimTarget> },
    Repeat { count: u64, body: Vec<StimInstr> },
}

impl StimInstr {
    pub fn new(name: &str, args: Vec<Decimal>, targets: Vec<StimTarget>) -> (r: StimInstr)
        ensures
            r matches StimInstr::Op { name: n, tag, args: a, targets: t } && n@ == name@ && tag
                is None && a == args && t == targets,
    {
        StimInstr::Op { name: name.to_owned(), tag: None, args, targets }
    }

    pub fn name(&self) -> (r: Option<&str>)
        ensures
            match r {
                Some(n) => self matches StimInstr::Op { name, .. } && n@ == name@,
                None => self is Repeat,
            },
    {
        match self {
            StimInstr::Op { name, .. } => Some(name.as_str()),
            _ => None,
        }
    }

    pub fn targets(&self) -> (r: Option<&Vec<StimTarget>>)
        ensures
            match r {
                Some(t) => self matches StimInstr::Op { targets, .. } && t == targets,
                None => self is Repeat,
            },
    {
        match self {
            StimInstr::Op { targets, .. } => Some(targets),
            _ => None,
        }
    }

    pub fn args(&self) -> (r: Option<&Vec<Decimal>>)
        ensures
            match r {
                Some(a) => self matches StimInstr::Op { args, .. } && a == args,
                None => self is Repeat,
            },
    {
        match self {
            StimInstr::Op { args, .. } => Some(args),
            _ => None,
        }
    }
}

/// Which derived output stream an annotation feeds.
#[derive(Debug, Clone, PartialEq)]
pub enum AnnotationKind {
    Detector,
    ObservableInclude,
}

/// A detector or observable annotation in already-resolved form.
#[derive(Debug, Clone, PartialEq)]
pub struct Annotation {
    pub kind: AnnotationKind,
    pub coords: Vec<Decimal>,
    pub rec_offsets: Vec<i32>,
    pub observable_index: Option<u32>,
}

impl Annotation {
    pub fn detector(coords: Vec<Decimal>, rec_offsets: Vec<i32>) -> (r: Annotation)
        ensures
            r.kind is Detector,
            r.coords == coords,
            r.rec_offsets == rec_offsets,
            r.observable_index is None,
    {
        Annotation { kind: AnnotationKind::Detector, coords, rec_offsets, observable_index: None }
    }

    pub fn observable_include(index: u32, rec_offsets: Vec<i32>) -> (r: Annotation)
        ensures
            r.kind is ObservableInclude,
            r.coords@ == Seq::<Decimal>::empty(),
            r.rec_offsets == rec_offsets,
            r.observable_index == Some(index),
    {
        Annotation {
            kind: AnnotationKind::ObservableInclude,
            coords: Vec::new(),
            rec_offsets,
            observable_index: Some(index),
        }
    }
}

} // verus!
