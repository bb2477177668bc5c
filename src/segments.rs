//! Builders for segments: memory regions that hold one serialized value.
use vstd::prelude::*;

verus! {

/// Default segment size, in bytes.
pub const DEFAULT_SEGMENT_SIZE: usize = 526336;

/// A builder for segments.
#[derive(Debug)]
pub struct SegmentBuilder<T> {
    disk_path: Option<String>,
    size: usize,
    initial_data: Option<T>,
}

impl<T> SegmentBuilder<T> {
    /// Where the segment is stored, if anywhere.
    pub closed spec fn spec_disk_path(&self) -> Option<Seq<char>> {
        match self.disk_path {
            Some(p) => Some(p@),
            None => None,
        }
    }

    /// The capacity asked for.
    pub closed spec fn spec_size(&self) -> usize {
        self.size
    }

    /// The value the segment starts with, if any.
    pub closed spec fn spec_initial_data(&self) -> Option<T> {
        self.initial_data
    }

    /// Sets where the segment is stored.
    pub fn stored_at(self, path: &str) -> (r: SegmentBuilder<T>)
        ensures
            r.spec_disk_path() == Some(path@),
            r.spec_size() == self.spec_size(),
            r.spec_initial_data() == self.spec_initial_data(),
    {
        SegmentBuilder { disk_path: Some(path.to_owned()), size: self.size, initial_data: self.initial_data }
    }

    /// Sets the capacity of the segment.
    pub fn with_capacity(self, size: usize) -> (r: SegmentBuilder<T>)
        ensures
            r.spec_disk_path() == self.spec_disk_path(),
            r.spec_size() == size,
            r.spec_initial_data() == self.spec_initial_data(),
    {
        SegmentBuilder { disk_path: self.disk_path, size, initial_data: self.initial_data }
    }

    /// Sets the type of the value, with no initial value.
    pub fn with_type<T2>(self) -> (r: SegmentBuilder<T2>)
        ensures
            r.spec_disk_path() == self.spec_disk_path(),
            r.spec_size() == self.spec_size(),
            r.spec_initial_data() is None,
    {
        SegmentBuilder { disk_path: self.disk_path, size: self.size, initial_data: None }
    }

    /// Sets the value the segment starts with.
    pub fn with_initial_value<T2>(self, value: T2) -> (r: SegmentBuilder<T2>)
        ensures
            r.spec_disk_path() == self.spec_disk_path(),
            r.spec_size() == self.spec_size(),
            r.spec_initial_data() == Some(value),
    {
        SegmentBuilder { disk_path: self.disk_path, size: self.size, initial_data: Some(value) }
    }

    /// Sets the value the segment starts with to `T2::default()`.
    pub fn with_default_value<T2: Default>(self) -> (r: SegmentBuilder<T2>)
        ensures
            r.spec_disk_path() == self.spec_disk_path(),
            r.spec_size() == self.spec_size(),
            r.spec_initial_data() is Some,
            call_ensures(T2::default, (), r.spec_initial_data()->0),
    {
        SegmentBuilder { disk_path: self.disk_path, size: self.size, initial_data: Some(T2::default()) }
    }

    /// Whether there is nothing to start the segment from: no initial value, and no stored
    /// segment to read (`stored` tells whether one exists at the path).
    pub fn is_empty(&self, stored: bool) -> (r: bool)
        ensures
            r == (self.spec_initial_data() is None && (self.spec_disk_path() is None || !stored)),
    {
        self.initial_data.is_none() && match &self.disk_path {
            Some(_) => !stored,
            None => true,
        }
    }
}

/// Fluent entry point for segments.
#[derive(Debug)]
pub struct Segments;

impl Segments {
    /// Creates a segment builder: not stored on disk, the default capacity, no initial value.
    pub fn builder(&self) -> (r: SegmentBuilder<()>)
        ensures
            r.spec_disk_path() is None,
            r.spec_size() == DEFAULT_SEGMENT_SIZE,
            r.spec_initial_data() is None,
    {
        SegmentBuilder { disk_path: None, size: DEFAULT_SEGMENT_SIZE, initial_data: None }
    }
}

/// An error persisting a segment.
#[derive(Debug)]
pub enum SegmentPersistError {
    /// Only a segment stored on disk can be persisted.
    MustBeFileBacked,
}

} // verus!
