use vstd::prelude::*;

verus! {

/// Identifies one submitted unit of source text.
#[derive(Clone, Copy, Debug, Hash, PartialEq, Eq, Structural, PartialOrd, Ord)]
pub struct FileId(pub usize);

impl FileId {
    pub fn new(id: usize) -> (r: FileId)
        ensures
            r.0 == id,
    {
        FileId(id)
    }
}

/// Where a span's text came from.
#[derive(Clone, Copy, Debug, Hash, PartialEq, Eq, Structural, PartialOrd, Ord)]
pub enum File {
    Repl(FileId),
}

impl File {
    pub fn id(self) -> (r: FileId)
        ensures
            r == (match self {
                File::Repl(id) => id,
            }),
    {
        match self {
            File::Repl(id) => id,
        }
    }
}

/// A half-open range of byte offsets `start..end` within one file.
#[derive(Clone, Copy, Debug, Hash, PartialEq, Eq, Structural, PartialOrd, Ord)]
pub struct Span {
    pub start: usize,
    pub end: usize,
    pub file_id: File,
}

impl Span {
    pub open spec fn valid(self) -> bool {
        self.start <= self.end
    }

    /// The smallest span that covers both `a` and `b` (both in the same file).
    pub open spec fn join(a: Span, b: Span) -> Span {
        Span {
            start: if a.start <= b.start { a.start } else { b.start },
            end: if a.end >= b.end { a.end } else { b.end },
            file_id: a.file_id,
        }
    }

    pub fn new(file_id: File, start: usize, end: usize) -> (r: Span)
        requires
            start <= end,
        ensures
            r.start == start,
            r.end == end,
            r.file_id == file_id,
            r.valid(),
    {
        Span { start, end, file_id }
    }

    /// The empty span at offset 0, used for an empty input.
    pub fn zero(file_id: File) -> (r: Span)
        ensures
            r.start == 0,
            r.end == 0,
            r.file_id == file_id,
    {
        Span { start: 0, end: 0, file_id }
    }

    pub fn range(&self) -> (r: core::ops::Range<usize>)
        ensures
            r.start == self.start,
            r.end == self.end,
    {
        self.start..self.end
    }

    pub fn start(&self) -> (r: usize)
        ensures
            r == self.start,
    {
        self.start
    }

    pub fn end(&self) -> (r: usize)
        ensures
            r == self.end,
    {
        self.end
    }

    pub fn context(&self) -> (r: File)
        ensures
            r == self.file_id,
    {
        self.file_id
    }

    /// The empty span at the end of this one.
    pub fn to_end(&self) -> (r: Span)
        ensures
            r.start == self.end,
            r.end == self.end,
            r.file_id == self.file_id,
    {
        Span { start: self.end, end: self.end, file_id: self.file_id }
    }

    /// The smallest span that covers both `self` and `other`.
    pub fn union(&self, other: Span) -> (r: Span)
        ensures
            r == Span::join(*self, other),
            self.valid() && other.valid() ==> r.valid(),
            r.start <= self.start && r.start <= other.start,
            r.end >= self.end && r.end >= other.end,
    {
        let start = if self.start <= other.start { self.start } else { other.start };
        let end = if self.end >= other.end { self.end } else { other.end };
        Span { start, end, file_id: self.file_id }
    }
}

/// A value paired with the span of source text it came from.
#[derive(Clone, Copy, Debug, Hash, PartialEq, Eq, PartialOrd, Ord)]
pub struct Spanned<T>(pub T, pub Span);

impl<T> Spanned<T> {
    pub fn new(value: T, span: Span) -> (r: Spanned<T>)
        ensures
            r.0 == value,
            r.1 == span,
    {
        Spanned(value, span)
    }

    pub fn boxed(self) -> (r: Spanned<Box<T>>)
        ensures
            *r.0 == self.0,
            r.1 == self.1,
    {
        Spanned(Box::new(self.0), self.1)
    }

    pub fn map<U, F: FnOnce(T) -> U>(self, f: F) -> (r: Spanned<U>)
        requires
            f.requires((self.0,)),
        ensures
            f.ensures((self.0,), r.0),
            r.1 == self.1,
    {
        Spanned(f(self.0), self.1)
    }
}

} // verus!
