//! Array expansion: the labels of an array's elements, and the name,
//! description and offset that each element gets from the array's own.
use crate::address::compute_element_offset;
use crate::address::element_offset;
use crate::model::ArrayDim;
use crate::model::BuildError;
use crate::text::decimal;
use crate::text::decimal_string;
use crate::text::substitute_index;
use crate::text::substituted;
use vstd::prelude::*;

verus! {

/// Whether the array has a label for each of its elements.
pub open spec fn labels_fit(array: ArrayDim) -> bool {
    match array.labels {
        Some(labels) => labels@.len() >= array.dim,
        None => true,
    }
}

/// The label of element `i`: the one given for it, or `i` in decimal.
pub open spec fn label(array: ArrayDim, i: nat) -> Seq<char> {
    match array.labels {
        Some(labels) => labels@[i as int]@,
        None => decimal(i),
    }
}

/// Whether the array has a label for each of its elements.
pub fn has_labels(array: &ArrayDim) -> (r: bool)
    ensures
        r == labels_fit(*array),
{
    match &array.labels {
        Some(labels) => labels.len() >= array.dim as usize,
        None => true,
    }
}

/// The label of element `i` of an array that has its labels.
pub fn element_label(array: &ArrayDim, i: u32) -> (r: String)
    requires
        labels_fit(*array),
        i < array.dim,
    ensures
        r@ == label(*array, i as nat),
{
    match &array.labels {
        Some(labels) => labels[i as usize].clone(),
        None => decimal_string(i as u64),
    }
}

/// One element of an expanded array.
#[derive(Debug, Clone, PartialEq, Eq)]
pub struct ArrayElement {
    pub label: String,
    pub name: String,
    pub description: String,
    /// How far the element lies from the first one.
    pub offset: u64,
}

/// An [`ArrayElement`] as contracts speak of it.
pub struct ArrayElementView {
    pub label: Seq<char>,
    pub name: Seq<char>,
    pub description: Seq<char>,
    pub offset: u64,
}

impl View for ArrayElement {
    type V = ArrayElementView;

    open spec fn view(&self) -> ArrayElementView {
        ArrayElementView {
            label: self.label@,
            name: self.name@,
            description: self.description@,
            offset: self.offset,
        }
    }
}

/// Element `i` of the array `array` of a definition called `name` and
/// described by `description`: its label stands in place of the placeholders
/// of both, and it lies `i` steps from the first element.
pub open spec fn element(
    name: Seq<char>,
    description: Seq<char>,
    array: ArrayDim,
    i: nat,
) -> ArrayElementView {
    ArrayElementView {
        label: label(array, i),
        name: substituted(name, label(array, i)),
        description: substituted(description, label(array, i)),
        offset: element_offset(array.increment, i as u32) as u64,
    }
}

/// The elements of an array, in the order of their indices: `array.dim` of
/// them. An array with fewer labels than elements has none.
pub fn expand_array(name: &str, description: &str, array: &ArrayDim) -> (r: Result<
    Vec<ArrayElement>,
    BuildError,
>)
    ensures
        match r {
            Ok(elements) => {
                &&& labels_fit(*array)
                &&& elements@.len() == array.dim
                &&& forall|i: int|
                    0 <= i < array.dim ==> (#[trigger] elements@[i])@ == element(
                        name@,
                        description@,
                        *array,
                        i as nat,
                    )
            },
            Err(e) => !labels_fit(*array) && e == BuildError::MissingIndexLabel,
        },
{
    if !has_labels(array) {
        return Err(BuildError::MissingIndexLabel);
    }
    let mut elements: Vec<ArrayElement> = Vec::new();
    let mut i: u32 = 0;
    while i < array.dim
        invariant
            labels_fit(*array),
            i <= array.dim,
            elements@.len() == i,
            forall|k: int|
                0 <= k < i ==> (#[trigger] elements@[k])@ == element(
                    name@,
                    description@,
                    *array,
                    k as nat,
                ),
        decreases array.dim - i,
    {
        let label = element_label(array, i);
        let element_name = substitute_index(name, label.as_str());
        let element_description = substitute_index(description, label.as_str());
        let offset = compute_element_offset(array.increment, i);
        elements.push(
            ArrayElement { label, name: element_name, description: element_description, offset },
        );
        i = i + 1;
    }
    Ok(elements)
}

} // verus!
