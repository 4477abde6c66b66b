//! What can go wrong while masking, and where.

use vstd::prelude::*;

verus! {

/// The reasons for which a masking run is given up.
#[derive(Clone, Copy, Debug, PartialEq, Eq, Structural)]
pub enum MaskError {
    /// A version or a requirement does not begin with `major.minor`.
    MalformedVersion,
    /// A name or a version that masking has to read is not a string.
    MalformedPackageEntry,
    /// Two local packages carry the same name.
    DuplicateLocalPackageName,
}

/// A step on the way from a document down to one of its values: into the
/// entry of a table under a key, or into the item of an array at a place.
#[derive(Debug, PartialEq, Eq)]
pub enum Segment {
    Key(String),
    Index(usize),
}

/// What a [`Segment`] holds.
pub enum SegmentView {
    Key(Seq<char>),
    Index(int),
}

impl View for Segment {
    type V = SegmentView;

    open spec fn view(&self) -> SegmentView {
        match self {
            Segment::Key(key) => SegmentView::Key(key@),
            Segment::Index(at) => SegmentView::Index(*at as int),
        }
    }
}

impl Clone for Segment {
    /// A second segment that holds the same.
    fn clone(&self) -> (r: Segment)
        ensures
            r@ == self@,
    {
        match self {
            Segment::Key(key) => Segment::Key(key.clone()),
            Segment::Index(at) => Segment::Index(*at),
        }
    }
}

/// What `path` holds, in order.
pub open spec fn path_view(path: Seq<Segment>) -> Seq<SegmentView> {
    Seq::new(path.len(), |i: int| path[i]@)
}

/// A failure within a document: the reason, and the way from the top of
/// the document down to the value that could not be read.
#[derive(Debug, PartialEq, Eq)]
pub struct Fault {
    pub error: MaskError,
    pub field: Vec<Segment>,
}

/// What a [`Fault`] holds.
pub struct FaultView {
    pub error: MaskError,
    pub field: Seq<SegmentView>,
}

impl View for Fault {
    type V = FaultView;

    open spec fn view(&self) -> FaultView {
        FaultView { error: self.error, field: path_view(self.field@) }
    }
}

impl FaultView {
    /// The fault `error` at the value that a table holds under `key`.
    pub open spec fn at(error: MaskError, key: Seq<char>) -> FaultView {
        FaultView { error, field: seq![SegmentView::Key(key)] }
    }

    /// This fault, seen from one step further up: from the table or array
    /// that holds, at `segment`, the value within which it lies.
    pub open spec fn under(self, segment: SegmentView) -> FaultView {
        FaultView { error: self.error, field: seq![segment] + self.field }
    }
}

/// `fault` seen from one step further up, if there is a fault.
pub open spec fn lifted(fault: Option<FaultView>, segment: SegmentView) -> Option<FaultView> {
    match fault {
        Some(fault) => Some(fault.under(segment)),
        None => None,
    }
}

impl Fault {
    /// The fault `error` at the value that a table holds under `key`.
    pub fn at(error: MaskError, key: &str) -> (r: Fault)
        ensures
            r@ == FaultView::at(error, key@),
    {
        let mut field: Vec<Segment> = Vec::new();
        field.push(Segment::Key(key.to_owned()));
        let r = Fault { error, field };
        assert(r@.field =~= seq![SegmentView::Key(key@)]);
        r
    }

    /// This fault, seen from one step further up.
    pub fn under(self, segment: Segment) -> (r: Fault)
        ensures
            r@ == self@.under(segment@),
    {
        let ghost before = self@;
        let Fault { error, field } = self;
        let mut field = field;
        field.insert(0, segment);
        let r = Fault { error, field };
        assert(r@.field =~= seq![segment@] + before.field);
        r
    }
}

impl Clone for Fault {
    /// A second fault that holds the same.
    fn clone(&self) -> (r: Fault)
        ensures
            r@ == self@,
    {
        let mut field: Vec<Segment> = Vec::new();
        let mut i: usize = 0;
        while i < self.field.len()
            invariant
                i <= self.field.len(),
                field.len() == i,
                forall|j: int| 0 <= j < i ==> field@[j]@ == self.field@[j]@,
            decreases self.field.len() - i,
        {
            field.push(self.field[i].clone());
            i += 1;
        }
        let r = Fault { error: self.error, field };
        assert(r@.field =~= self@.field);
        r
    }
}

/// What a step of masking reports: the fault, if it failed.
pub open spec fn fault_of(r: Result<(), Fault>) -> Option<FaultView> {
    match r {
        Ok(_) => None,
        Err(fault) => Some(fault@),
    }
}

/// `r`, with its fault seen from the table that holds under `key` the
/// value within which it lies.
pub fn lift(r: Result<(), Fault>, key: &str) -> (up: Result<(), Fault>)
    ensures
        fault_of(up) == lifted(fault_of(r), SegmentView::Key(key@)),
{
    match r {
        Ok(()) => Ok(()),
        Err(fault) => Err(fault.under(Segment::Key(key.to_owned()))),
    }
}

/// What a reading of a document reports: what was read, or the fault.
pub open spec fn reading_of<T>(r: Result<T, Fault>) -> Result<T, FaultView> {
    match r {
        Ok(read) => Ok(read),
        Err(fault) => Err(fault@),
    }
}

/// The document in which a run failed.
#[derive(Clone, Copy, Debug, PartialEq, Eq, Structural)]
pub enum DocumentId {
    /// The manifest at this position in the set handed in.
    Manifest(usize),
    /// The lock document.
    Lock,
}

/// The failure of a run: the reason, the document, and the way from the
/// top of that document down to the value that caused it.
#[derive(Debug, PartialEq, Eq)]
pub struct RunFault {
    pub error: MaskError,
    pub document: DocumentId,
    pub field: Vec<Segment>,
}

/// What a [`RunFault`] holds.
pub struct RunFaultView {
    pub error: MaskError,
    pub document: DocumentId,
    pub field: Seq<SegmentView>,
}

impl View for RunFault {
    type V = RunFaultView;

    open spec fn view(&self) -> RunFaultView {
        RunFaultView {
            error: self.error,
            document: self.document,
            field: path_view(self.field@),
        }
    }
}

impl FaultView {
    /// This fault as the failure of a run, in `document`.
    pub open spec fn within(self, document: DocumentId) -> RunFaultView {
        RunFaultView { error: self.error, document, field: self.field }
    }
}

impl Fault {
    /// This fault as the failure of a run, in `document`.
    pub fn within(self, document: DocumentId) -> (r: RunFault)
        ensures
            r@ == self@.within(document),
    {
        RunFault { error: self.error, document, field: self.field }
    }
}

/// What a run reports: nothing, or its failure.
pub open spec fn run_fault_of(r: Result<(), RunFault>) -> Result<(), RunFaultView> {
    match r {
        Ok(_) => Ok(()),
        Err(failure) => Err(failure@),
    }
}

} // verus!
