//! The parsed document: hosts and their properties, borrowed from the input.
use vstd::prelude::*;
use vstd::string::StringSliceAdditionalSpecFns;

use crate::grammar::{HostView, Outcome, ParseError, PropertyView};

verus! {

/// One setting of a host: the first token of its line, and the rest of the
/// line up to a comment, trimmed.
#[derive(PartialEq, Eq, Debug)]
pub struct Property<'a> {
    pub key: &'a str,
    pub value: &'a str,
}

/// A host block: the name on its header line and its properties in file order.
#[derive(PartialEq, Eq, Debug)]
pub struct Host<'a> {
    pub name: &'a str,
    pub properties: Vec<Property<'a>>,
}

/// What a parsed value stands for, in terms of the input's bytes.
pub trait Model {
    type M;

    spec fn model(&self) -> Self::M;
}

impl<'a> Model for &'a str {
    type M = Seq<u8>;

    open spec fn model(&self) -> Seq<u8> {
        (*self).spec_bytes()
    }
}

impl Model for () {
    type M = ();

    open spec fn model(&self) -> () {
        ()
    }
}

impl<'a> Model for Property<'a> {
    type M = PropertyView;

    open spec fn model(&self) -> PropertyView {
        (self.key.spec_bytes(), self.value.spec_bytes())
    }
}

impl<'a> Model for Host<'a> {
    type M = HostView;

    open spec fn model(&self) -> HostView {
        (self.name.spec_bytes(), self.properties.model())
    }
}

impl<T: Model> Model for Vec<T> {
    type M = Seq<T::M>;

    open spec fn model(&self) -> Seq<T::M> {
        self@.map_values(|x: T| x.model())
    }
}

/// What a parser's result stands for: the bytes left and the model of what it
/// read, or the same error.
pub open spec fn outcome<'a, T: Model>(r: Result<(&'a str, T), ParseError>) -> Outcome<T::M> {
    match r {
        Ok((rest, v)) => Ok((rest.spec_bytes(), v.model())),
        Err(e) => Err(e),
    }
}

} // verus!
