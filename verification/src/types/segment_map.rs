//! A map from segment names to values: one place for each of the four names.

use crate::types::segment::SegmentName;
use vstd::prelude::*;

verus! {

/// A value for some of the four segment names.
#[derive(Debug)]
pub struct SegMap<T> {
    pub text: Option<T>,
    pub got: Option<T>,
    pub data: Option<T>,
    pub bss: Option<T>,
}

impl<T: DeepView> DeepView for SegMap<T> {
    type V = SegMap<T::V>;

    open spec fn deep_view(&self) -> SegMap<T::V> {
        SegMap {
            text: self.text.deep_view(),
            got: self.got.deep_view(),
            data: self.data.deep_view(),
            bss: self.bss.deep_view(),
        }
    }
}

impl<T> SegMap<T> {
    /// The map without values.
    pub open spec fn empty() -> SegMap<T> {
        SegMap { text: None, got: None, data: None, bss: None }
    }

    /// The value of a name.
    pub open spec fn at(self, name: SegmentName) -> Option<T> {
        match name {
            SegmentName::TEXT => self.text,
            SegmentName::GOT => self.got,
            SegmentName::DATA => self.data,
            SegmentName::BSS => self.bss,
        }
    }

    /// The map with the value of a name set.
    pub open spec fn put(self, name: SegmentName, value: T) -> SegMap<T> {
        match name {
            SegmentName::TEXT => SegMap { text: Some(value), ..self },
            SegmentName::GOT => SegMap { got: Some(value), ..self },
            SegmentName::DATA => SegMap { data: Some(value), ..self },
            SegmentName::BSS => SegMap { bss: Some(value), ..self },
        }
    }

    /// The number of names that have a value.
    pub open spec fn count(self) -> int {
        (if self.text is Some {
            1int
        } else {
            0
        }) + (if self.got is Some {
            1int
        } else {
            0
        }) + (if self.data is Some {
            1int
        } else {
            0
        }) + (if self.bss is Some {
            1int
        } else {
            0
        })
    }

    /// The map without values.
    pub fn new() -> (m: SegMap<T>)
        ensures
            m == SegMap::<T>::empty(),
    {
        SegMap { text: None, got: None, data: None, bss: None }
    }

    /// The value of a name, if it has one.
    pub fn get(&self, name: &SegmentName) -> (r: Option<&T>)
        ensures
            match r {
                Some(v) => self.at(*name) == Some(*v),
                None => self.at(*name) is None,
            },
    {
        match name {
            SegmentName::TEXT => self.text.as_ref(),
            SegmentName::GOT => self.got.as_ref(),
            SegmentName::DATA => self.data.as_ref(),
            SegmentName::BSS => self.bss.as_ref(),
        }
    }

    /// Whether a name has a value.
    pub fn contains_key(&self, name: &SegmentName) -> (b: bool)
        ensures
            b == self.at(*name) is Some,
    {
        self.get(name).is_some()
    }

    /// Sets the value of a name.
    pub fn insert(&mut self, name: SegmentName, value: T)
        ensures
            *final(self) == old(self).put(name, value),
    {
        match name {
            SegmentName::TEXT => {
                self.text = Some(value);
            },
            SegmentName::GOT => {
                self.got = Some(value);
            },
            SegmentName::DATA => {
                self.data = Some(value);
            },
            SegmentName::BSS => {
                self.bss = Some(value);
            },
        }
    }

    /// The map without the value of a name.
    pub open spec fn without(self, name: SegmentName) -> SegMap<T> {
        match name {
            SegmentName::TEXT => SegMap { text: None, ..self },
            SegmentName::GOT => SegMap { got: None, ..self },
            SegmentName::DATA => SegMap { data: None, ..self },
            SegmentName::BSS => SegMap { bss: None, ..self },
        }
    }

    /// Takes the value of a name out of the map.
    pub fn take(&mut self, name: SegmentName) -> (r: Option<T>)
        ensures
            r == old(self).at(name),
            *final(self) == old(self).without(name),
    {
        let mut r: Option<T> = None;
        match name {
            SegmentName::TEXT => {
                core::mem::swap(&mut self.text, &mut r);
            },
            SegmentName::GOT => {
                core::mem::swap(&mut self.got, &mut r);
            },
            SegmentName::DATA => {
                core::mem::swap(&mut self.data, &mut r);
            },
            SegmentName::BSS => {
                core::mem::swap(&mut self.bss, &mut r);
            },
        }
        r
    }

    /// The number of names that have a value.
    pub fn len(&self) -> (n: usize)
        ensures
            n == self.count(),
    {
        let mut n: usize = 0;
        if self.text.is_some() {
            n += 1;
        }
        if self.got.is_some() {
            n += 1;
        }
        if self.data.is_some() {
            n += 1;
        }
        if self.bss.is_some() {
            n += 1;
        }
        n
    }
}

/// Setting a value shows in the view.
pub proof fn lemma_segmap_put_view<T: DeepView>(m: SegMap<T>, name: SegmentName, value: T)
    ensures
        m.put(name, value).deep_view() == m.deep_view().put(name, value.deep_view()),
        m.deep_view().at(name) == m.at(name).deep_view(),
{
}


/// The view of the value of a name is the value of the name in the view.
pub proof fn lemma_segmap_at_view<T: DeepView>(m: SegMap<T>, name: SegmentName)
    ensures
        m.deep_view().at(name) == m.at(name).deep_view(),
{
}

} // verus!
