//! The register description that is flattened, and the nodes it is
//! flattened to.
use vstd::prelude::*;
use vstd::string::StringExecFns;

verus! {

/// One value of an enumerated value set, with its symbolic name. A value
/// without a number (a default) is never displayed.
#[derive(Debug, Clone, PartialEq, Eq)]
pub struct EnumValue {
    pub name: String,
    pub value: Option<u64>,
}

/// The values a field can take: declared in place, or taken from the set that
/// `reference` names.
#[derive(Debug, Clone, PartialEq, Eq)]
pub enum EnumeratedValueSetRef {
    Inline { name: Option<String>, values: Vec<EnumValue> },
    Derived { reference: String },
}

/// What makes a definition an array: how many elements, the step from one
/// element to the next, and the labels of the elements. Without `labels` the
/// elements are labelled `0`, `1`, ... in decimal.
#[derive(Debug, Clone, PartialEq, Eq)]
pub struct ArrayDim {
    pub dim: u32,
    pub increment: u32,
    pub labels: Option<Vec<String>>,
}

/// A bit range of a register. With `array` it is a field array, whose
/// elements lie `array.increment` bits apart, the first at bit 0.
#[derive(Debug, Clone, PartialEq, Eq)]
pub struct FieldDef {
    pub name: String,
    pub description: Option<String>,
    pub bit_offset: u32,
    pub bit_width: u32,
    pub enumerated_values: Vec<EnumeratedValueSetRef>,
    pub array: Option<ArrayDim>,
}

/// A register, or with `array` a register array.
#[derive(Debug, Clone, PartialEq, Eq)]
pub struct RegisterDef {
    pub name: String,
    pub description: Option<String>,
    pub address_offset: u32,
    pub fields: Vec<FieldDef>,
    pub array: Option<ArrayDim>,
}

/// A cluster of registers and further clusters, or with `array` a cluster
/// array.
#[derive(Debug, PartialEq, Eq)]
pub struct ClusterDef {
    pub name: String,
    pub description: Option<String>,
    pub address_offset: u32,
    pub children: Vec<RegisterClusterNode>,
    pub array: Option<ArrayDim>,
}

/// What stands in a peripheral or a cluster: a register or a cluster.
#[derive(Debug, PartialEq, Eq)]
pub enum RegisterClusterNode {
    Register(RegisterDef),
    Cluster(ClusterDef),
}

/// A peripheral: a base address and what stands there. With
/// `derived_from` it takes its content, and its description, from the
/// peripheral of that name.
#[derive(Debug, PartialEq, Eq)]
pub struct PeripheralDef {
    pub name: String,
    pub base_address: u64,
    pub description: Option<String>,
    pub derived_from: Option<String>,
    pub children: Vec<RegisterClusterNode>,
}

/// A device: its peripherals, in the order of the description.
#[derive(Debug, PartialEq, Eq)]
pub struct DeviceDef {
    pub peripherals: Vec<PeripheralDef>,
}

/// What a row stands for.
#[derive(Debug, Clone, Copy, PartialEq, Eq, Structural)]
pub enum NodeKind {
    Peripheral,
    Cluster,
    ClusterArray,
    Register,
    RegisterArray,
    Field,
    FieldArray,
}

/// One row of the flattened tree. The rows stand in display order, each
/// node before its children, and `depth` says how far below a peripheral a
/// row is. An array row has no address; its elements follow it one level
/// deeper.
#[derive(Debug, Clone, PartialEq, Eq)]
pub struct FlatNode {
    pub kind: NodeKind,
    pub name: String,
    pub path: String,
    pub depth: usize,
    pub address: Option<u64>,
    pub description: String,
    pub tooltip: String,
    pub bit_offset: Option<u64>,
    pub bit_width: Option<u32>,
    pub enabled: bool,
    pub alias: String,
    pub editable: bool,
}

/// A [`FlatNode`] as contracts speak of it.
pub struct FlatNodeView {
    pub kind: NodeKind,
    pub name: Seq<char>,
    pub path: Seq<char>,
    pub depth: nat,
    pub address: Option<u64>,
    pub description: Seq<char>,
    pub tooltip: Seq<char>,
    pub bit_offset: Option<u64>,
    pub bit_width: Option<u32>,
    pub enabled: bool,
    pub alias: Seq<char>,
    pub editable: bool,
}

impl View for FlatNode {
    type V = FlatNodeView;

    open spec fn view(&self) -> FlatNodeView {
        FlatNodeView {
            kind: self.kind,
            name: self.name@,
            path: self.path@,
            depth: self.depth as nat,
            address: self.address,
            description: self.description@,
            tooltip: self.tooltip@,
            bit_offset: self.bit_offset,
            bit_width: self.bit_width,
            enabled: self.enabled,
            alias: self.alias@,
            editable: self.editable,
        }
    }
}

/// The rows of a tree as contracts speak of them.
pub open spec fn node_views(nodes: Seq<FlatNode>) -> Seq<FlatNodeView> {
    nodes.map_values(|n: FlatNode| n@)
}

/// A row more in the list is a row more in what contracts speak of.
pub proof fn lemma_node_views_push(nodes: Seq<FlatNode>, node: FlatNode)
    ensures
        node_views(nodes.push(node)) == node_views(nodes).push(node@),
{
    assert(node_views(nodes.push(node)) =~= node_views(nodes).push(node@));
}

/// Why a description could not be flattened.
#[derive(Debug, Clone, PartialEq, Eq)]
pub enum BuildError {
    /// An absolute address does not fit in 64 bits.
    AddressOverflow,
    /// An array has fewer labels than elements.
    MissingIndexLabel,
    /// A field of no bits at bit 0: it has no highest bit.
    EmptyBitRange,
    /// A reference to an enumerated value set that has neither one, three
    /// nor four segments.
    UnsupportedReference(String),
    /// A reference to an enumerated value set that names no set.
    UnknownReference(String),
}

/// A [`BuildError`] as contracts speak of it.
pub enum BuildErrorView {
    AddressOverflow,
    MissingIndexLabel,
    EmptyBitRange,
    UnsupportedReference(Seq<char>),
    UnknownReference(Seq<char>),
}

impl View for BuildError {
    type V = BuildErrorView;

    open spec fn view(&self) -> BuildErrorView {
        match self {
            BuildError::AddressOverflow => BuildErrorView::AddressOverflow,
            BuildError::MissingIndexLabel => BuildErrorView::MissingIndexLabel,
            BuildError::EmptyBitRange => BuildErrorView::EmptyBitRange,
            BuildError::UnsupportedReference(r) => BuildErrorView::UnsupportedReference(r@),
            BuildError::UnknownReference(r) => BuildErrorView::UnknownReference(r@),
        }
    }
}

/// What the error says, in words.
pub open spec fn build_error_text(e: BuildErrorView) -> Seq<char> {
    match e {
        BuildErrorView::AddressOverflow => "an address does not fit in 64 bits"@,
        BuildErrorView::MissingIndexLabel => "an array has fewer labels than elements"@,
        BuildErrorView::EmptyBitRange => "a field of no bits has no highest bit"@,
        BuildErrorView::UnsupportedReference(r) => "the reference `"@ + r
            + "` has neither one, three nor four segments"@,
        BuildErrorView::UnknownReference(r) => "the reference `"@ + r
            + "` names no enumerated value set"@,
    }
}

impl BuildError {
    /// The error in words.
    pub fn message(&self) -> (r: String)
        ensures
            r@ == build_error_text(self@),
    {
        match self {
            BuildError::AddressOverflow => String::from_str("an address does not fit in 64 bits"),
            BuildError::MissingIndexLabel => String::from_str(
                "an array has fewer labels than elements",
            ),
            BuildError::EmptyBitRange => String::from_str("a field of no bits has no highest bit"),
            BuildError::UnsupportedReference(reference) => {
                let mut r = String::from_str("the reference `");
                r.append(reference.as_str());
                r.append("` has neither one, three nor four segments");
                r
            },
            BuildError::UnknownReference(reference) => {
                let mut r = String::from_str("the reference `");
                r.append(reference.as_str());
                r.append("` names no enumerated value set");
                r
            },
        }
    }
}

} // verus!
