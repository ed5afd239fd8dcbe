use vstd::prelude::*;
use vstd::string::*;
use vstd::utf8::{encode_utf8, encode_utf8_decode_utf8};

use crate::error::SdkError;
use crate::order::{
    bytes_lt, compare_bytes, lemma_bytes_lt_asymmetric, lemma_bytes_lt_irreflexive,
    lemma_bytes_lt_total, lemma_bytes_lt_transitive, Order,
};
use crate::text::{decimal, push_decimal_digits, text_error, text_ok, validate_text};

verus! {

pub const MAX_NODES: usize = 65_536;
pub const MAX_RELATIONS: usize = 262_144;
pub const MAX_ID_BYTES: usize = 256;
pub const MAX_LABEL_BYTES: usize = 4_096;
pub const MAX_CODE_BYTES: usize = 128;
pub const MAX_MESSAGE_BYTES: usize = 2_048;

/// The concepts of the reference ontology.
#[derive(Debug, Clone, Copy, PartialEq, Eq, PartialOrd, Ord, Structural)]
pub enum ConceptKind {
    Observation,
    FeatureSet,
    SignalEvent,
    SignalClass,
    Embedding,
    Pattern,
    Evidence,
}

/// The relations of the reference ontology.
#[derive(Debug, Clone, Copy, PartialEq, Eq, PartialOrd, Ord, Structural)]
pub enum RelationKind {
    Contains,
    ClassifiedAs,
    HasEmbedding,
    BelongsTo,
    ComposedOf,
    SupportedBy,
    Supports,
    DerivedFrom,
}

/// Two character sequences are equal when their UTF-8 encodings are.
pub proof fn lemma_encode_injective(a: Seq<char>, b: Seq<char>)
    requires
        encode_utf8(a) == encode_utf8(b),
    ensures
        a == b,
{
    encode_utf8_decode_utf8(a);
    encode_utf8_decode_utf8(b);
}

/// Whether two texts are the same, comparing their bytes.
pub fn same_text(a: &str, b: &str) -> (r: bool)
    ensures
        r == (a@ == b@),
{
    let o = compare_bytes(a.as_bytes(), b.as_bytes());
    proof {
        if o == Order::Equal {
            lemma_encode_injective(a@, b@);
        }
    }
    o == Order::Equal
}

/// An optional label is acceptable when absent, or bounded and not blank.
pub open spec fn label_ok(label: Option<Seq<char>>, max: nat) -> bool {
    match label {
        Some(l) => text_ok(l, max),
        None => true,
    }
}

pub struct NodeView {
    pub id: Seq<char>,
    pub kind: ConceptKind,
    pub label: Option<Seq<char>>,
}

/// A typed node of an ontology graph.
#[derive(Debug, Clone)]
pub struct OntologyNode {
    id: String,
    kind: ConceptKind,
    label: Option<String>,
}

pub open spec fn option_view(o: Option<String>) -> Option<Seq<char>> {
    match o {
        Some(s) => Some(s@),
        None => None,
    }
}

impl View for OntologyNode {
    type V = NodeView;

    closed spec fn view(&self) -> NodeView {
        NodeView { id: self.id@, kind: self.kind, label: option_view(self.label) }
    }
}

impl OntologyNode {
    /// A node whose id is not blank and at most 256 bytes, and whose label, if
    /// any, is not blank and at most 4096 bytes.
    pub fn new(id: String, kind: ConceptKind, label: Option<String>) -> (r: Result<Self, SdkError>)
        ensures
            r is Ok <==> text_ok(id@, MAX_ID_BYTES as nat) && label_ok(
                option_view(label),
                MAX_LABEL_BYTES as nat,
            ),
            r matches Ok(n) ==> n@ == (NodeView { id: id@, kind, label: option_view(label) }),
            r matches Err(e) ==> (if !text_ok(id@, MAX_ID_BYTES as nat) {
                text_error("ontology node id"@, id@, MAX_ID_BYTES, e)
            } else {
                text_error("ontology node label"@, option_view(label)->0, MAX_LABEL_BYTES, e)
            }),
    {
        validate_text("ontology node id", id.as_str(), MAX_ID_BYTES)?;
        if let Some(value) = &label {
            validate_text("ontology node label", value.as_str(), MAX_LABEL_BYTES)?;
        }
        Ok(OntologyNode { id, kind, label })
    }

    pub fn id(&self) -> (r: &str)
        ensures
            r@ == self@.id,
    {
        self.id.as_str()
    }

    pub fn kind(&self) -> (r: ConceptKind)
        ensures
            r == self@.kind,
    {
        self.kind
    }

    pub fn label(&self) -> (r: Option<&str>)
        ensures
            match r {
                Some(l) => self@.label == Some(l@),
                None => self@.label is None,
            },
    {
        match &self.label {
            Some(l) => Some(l.as_str()),
            None => None,
        }
    }
}

pub struct RelationView {
    pub source: Seq<char>,
    pub relation: RelationKind,
    pub target: Seq<char>,
}

/// A typed, directed relation between two nodes, named by their ids.
#[derive(Debug, Clone)]
pub struct OntologyRelation {
    source: String,
    relation: RelationKind,
    target: String,
}

impl View for OntologyRelation {
    type V = RelationView;

    closed spec fn view(&self) -> RelationView {
        RelationView { source: self.source@, relation: self.relation, target: self.target@ }
    }
}

impl OntologyRelation {
    /// A relation whose endpoint ids are not blank and at most 256 bytes.
    pub fn new(source: String, relation: RelationKind, target: String) -> (r: Result<
        Self,
        SdkError,
    >)
        ensures
            r is Ok <==> text_ok(source@, MAX_ID_BYTES as nat) && text_ok(
                target@,
                MAX_ID_BYTES as nat,
            ),
            r matches Ok(x) ==> x@ == (RelationView { source: source@, relation, target: target@ }),
            r matches Err(e) ==> (if !text_ok(source@, MAX_ID_BYTES as nat) {
                text_error("ontology relation source"@, source@, MAX_ID_BYTES, e)
            } else {
                text_error("ontology relation target"@, target@, MAX_ID_BYTES, e)
            }),
    {
        validate_text("ontology relation source", source.as_str(), MAX_ID_BYTES)?;
        validate_text("ontology relation target", target.as_str(), MAX_ID_BYTES)?;
        Ok(OntologyRelation { source, relation, target })
    }

    pub fn source(&self) -> (r: &str)
        ensures
            r@ == self@.source,
    {
        self.source.as_str()
    }

    pub fn relation(&self) -> (r: RelationKind)
        ensures
            r == self@.relation,
    {
        self.relation
    }

    /// A copy of the relation.
    pub fn clone_relation(&self) -> (r: Self)
        ensures
            r@ == self@,
    {
        OntologyRelation {
            source: self.source.clone(),
            relation: self.relation,
            target: self.target.clone(),
        }
    }

    pub fn target(&self) -> (r: &str)
        ensures
            r@ == self@.target,
    {
        self.target.as_str()
    }
}

pub struct ViolationView {
    pub code: Seq<char>,
    pub message: Seq<char>,
}

/// One finding of a consistency check: a short code and a message.
#[derive(Debug, Clone)]
pub struct ConsistencyViolation {
    code: String,
    message: String,
}

impl View for ConsistencyViolation {
    type V = ViolationView;

    closed spec fn view(&self) -> ViolationView {
        ViolationView { code: self.code@, message: self.message@ }
    }
}

impl ConsistencyViolation {
    /// A violation whose code (at most 128 bytes) and message (at most 2048
    /// bytes) are not blank.
    pub fn new(code: String, message: String) -> (r: Result<Self, SdkError>)
        ensures
            r is Ok <==> text_ok(code@, MAX_CODE_BYTES as nat) && text_ok(
                message@,
                MAX_MESSAGE_BYTES as nat,
            ),
            r matches Ok(v) ==> v@ == (ViolationView { code: code@, message: message@ }),
            r matches Err(e) ==> (if !text_ok(code@, MAX_CODE_BYTES as nat) {
                text_error("consistency code"@, code@, MAX_CODE_BYTES, e)
            } else {
                text_error("consistency message"@, message@, MAX_MESSAGE_BYTES, e)
            }),
    {
        validate_text("consistency code", code.as_str(), MAX_CODE_BYTES)?;
        validate_text("consistency message", message.as_str(), MAX_MESSAGE_BYTES)?;
        Ok(ConsistencyViolation { code, message })
    }

    pub fn code(&self) -> (r: &str)
        ensures
            r@ == self@.code,
    {
        self.code.as_str()
    }

    pub fn message(&self) -> (r: &str)
        ensures
            r@ == self@.message,
    {
        self.message.as_str()
    }
}

/// Violations are ordered by code, then message, both as byte strings.
pub open spec fn violation_lt(a: ViolationView, b: ViolationView) -> bool {
    bytes_lt(encode_utf8(a.code), encode_utf8(b.code)) || (encode_utf8(a.code) == encode_utf8(
        b.code,
    ) && bytes_lt(encode_utf8(a.message), encode_utf8(b.message)))
}

pub open spec fn violation_views(s: Seq<ConsistencyViolation>) -> Seq<ViolationView> {
    s.map_values(|v: ConsistencyViolation| v@)
}

/// Strictly increasing in the violation order: sorted with no repeats.
pub open spec fn strictly_sorted(s: Seq<ViolationView>) -> bool {
    forall|i: int, j: int| 0 <= i < j < s.len() ==> violation_lt(#[trigger] s[i], #[trigger] s[j])
}

proof fn lemma_violation_lt_facts(a: ViolationView, b: ViolationView, c: ViolationView)
    ensures
        !violation_lt(a, a),
        !(violation_lt(a, b) && violation_lt(b, a)),
        violation_lt(a, b) && violation_lt(b, c) ==> violation_lt(a, c),
        a == b || violation_lt(a, b) || violation_lt(b, a),
{
    let (ac, bc, cc) = (encode_utf8(a.code), encode_utf8(b.code), encode_utf8(c.code));
    let (am, bm, cm) = (encode_utf8(a.message), encode_utf8(b.message), encode_utf8(c.message));
    lemma_bytes_lt_irreflexive(ac);
    lemma_bytes_lt_irreflexive(am);
    lemma_bytes_lt_asymmetric(ac, bc);
    lemma_bytes_lt_asymmetric(am, bm);
    lemma_bytes_lt_total(ac, bc);
    lemma_bytes_lt_total(am, bm);
    if bytes_lt(ac, bc) && bytes_lt(bc, cc) {
        lemma_bytes_lt_transitive(ac, bc, cc);
    }
    if bytes_lt(am, bm) && bytes_lt(bm, cm) {
        lemma_bytes_lt_transitive(am, bm, cm);
    }
    if ac == bc && am == bm {
        lemma_encode_injective(a.code, b.code);
        lemma_encode_injective(a.message, b.message);
    }
}

fn violation_less(a: &ConsistencyViolation, b: &ConsistencyViolation) -> (r: Order)
    ensures
        (r == Order::Less) == violation_lt(a@, b@),
        (r == Order::Equal) == (a@ == b@),
        (r == Order::Greater) == violation_lt(b@, a@),
{
    proof {
        lemma_violation_lt_facts(a@, b@, b@);
        lemma_violation_lt_facts(b@, a@, a@);
    }
    match compare_bytes(a.code.as_str().as_bytes(), b.code.as_str().as_bytes()) {
        Order::Less => Order::Less,
        Order::Greater => Order::Greater,
        Order::Equal => {
            let m = compare_bytes(a.message.as_str().as_bytes(), b.message.as_str().as_bytes());
            proof {
                lemma_encode_injective(a@.code, b@.code);
                if m == Order::Equal {
                    lemma_encode_injective(a@.message, b@.message);
                }
            }
            m
        },
    }
}

/// Inserts `x` into a strictly sorted list of violations, unless it is there.
fn insert_violation(list: &mut Vec<ConsistencyViolation>, x: ConsistencyViolation)
    requires
        strictly_sorted(violation_views(old(list)@)),
    ensures
        strictly_sorted(violation_views(final(list)@)),
        violation_views(final(list)@).to_set() == violation_views(old(list)@).to_set().insert(x@),
{
    let ghost old_views = violation_views(list@);
    let mut i: usize = 0;
    while i < list.len()
        invariant
            i <= list@.len(),
            old_views == violation_views(list@),
            strictly_sorted(old_views),
            forall|k: int| 0 <= k < i ==> violation_lt(#[trigger] old_views[k], x@),
        ensures
            i <= list@.len(),
            old_views == violation_views(list@),
            forall|k: int| 0 <= k < i ==> violation_lt(#[trigger] old_views[k], x@),
            i == list@.len() || violation_lt(x@, old_views[i as int]),
        decreases list.len() - i,
    {
        let o = violation_less(&list[i], &x);
        if o == Order::Equal {
            proof {
                assert(old_views[i as int] == x@);
                assert(old_views.to_set().insert(x@) =~= old_views.to_set());
            }
            return;
        }
        if o == Order::Greater {
            break;
        }
        i += 1;
    }
    list.insert(i, x);
    proof {
        let nv = violation_views(list@);
        assert(nv =~= old_views.insert(i as int, x@));
        assert forall|a: int, b: int| 0 <= a < b < nv.len() implies violation_lt(
            #[trigger] nv[a],
            #[trigger] nv[b],
        ) by {
            if b > i {
                if b - 1 > i {
                    assert(violation_lt(old_views[i as int], old_views[b - 1]));
                }
                lemma_violation_lt_facts(x@, old_views[i as int], old_views[b - 1]);
                assert(violation_lt(x@, old_views[b - 1]));
                if a < i {
                    lemma_violation_lt_facts(old_views[a], x@, old_views[b - 1]);
                }
            }
        }
        assert(nv.to_set() =~= old_views.to_set().insert(x@)) by {
            assert forall|v| nv.to_set().contains(v) implies old_views.to_set().insert(x@).contains(
                v,
            ) by {
                let k = choose|k: int| 0 <= k < nv.len() && nv[k] == v;
                if k < i {
                    assert(old_views[k] == v);
                } else if k > i {
                    assert(old_views[k - 1] == v);
                }
            }
            assert forall|v| old_views.to_set().insert(x@).contains(v) implies nv.to_set().contains(
                v,
            ) by {
                if v == x@ {
                    assert(nv[i as int] == v);
                } else {
                    let k = choose|k: int| 0 <= k < old_views.len() && old_views[k] == v;
                    if k < i {
                        assert(nv[k] == v);
                    } else {
                        assert(nv[k + 1] == v);
                    }
                }
            }
        }
    }
}

fn raw_violation(code: &str, message: &str) -> (r: ConsistencyViolation)
    ensures
        r@ == (ViolationView { code: code@, message: message@ }),
{
    ConsistencyViolation { code: String::from_str(code), message: String::from_str(message) }
}

/// The violations a consistency check found, sorted and without repeats.
#[derive(Debug)]
pub struct ConsistencyReport {
    violations: Vec<ConsistencyViolation>,
}

impl View for ConsistencyReport {
    type V = Seq<ViolationView>;

    closed spec fn view(&self) -> Seq<ViolationView> {
        violation_views(self.violations@)
    }
}

impl ConsistencyReport {
    #[verifier::type_invariant]
    spec fn well_formed(self) -> bool {
        strictly_sorted(violation_views(self.violations@))
    }

    /// A report with no violation.
    pub fn valid() -> (r: Self)
        ensures
            r@ == Seq::<ViolationView>::empty(),
    {
        let r = ConsistencyReport { violations: Vec::new() };
        proof {
            assert(violation_views(r.violations@) =~= Seq::<ViolationView>::empty());
        }
        r
    }

    /// A report with one violation, validated as `ConsistencyViolation::new` does.
    pub fn from_violation(code: String, message: String) -> (r: Result<Self, SdkError>)
        ensures
            r is Ok <==> text_ok(code@, MAX_CODE_BYTES as nat) && text_ok(
                message@,
                MAX_MESSAGE_BYTES as nat,
            ),
            r matches Ok(rep) ==> rep@ == seq![ViolationView { code: code@, message: message@ }],
            r matches Err(e) ==> (if !text_ok(code@, MAX_CODE_BYTES as nat) {
                text_error("consistency code"@, code@, MAX_CODE_BYTES, e)
            } else {
                text_error("consistency message"@, message@, MAX_MESSAGE_BYTES, e)
            }),
    {
        let v = ConsistencyViolation::new(code, message)?;
        let mut violations = Vec::new();
        violations.push(v);
        proof {
            assert(violation_views(violations@) =~= seq![v@]);
        }
        Ok(ConsistencyReport { violations })
    }

    /// A report over the given violations: sorted, repeats removed.
    pub fn from_violations(violations: Vec<ConsistencyViolation>) -> (r: Self)
        ensures
            strictly_sorted(r@),
            r@.to_set() == violation_views(violations@).to_set(),
    {
        let mut sorted: Vec<ConsistencyViolation> = Vec::new();
        let mut rest = violations;
        let ghost all = violation_views(rest@);
        let mut i: usize = 0;
        proof {
            assert(violation_views(sorted@).to_set() =~= all.take(0).to_set());
        }
        while i < rest.len()
            invariant
                i <= rest@.len(),
                all == violation_views(rest@),
                strictly_sorted(violation_views(sorted@)),
                violation_views(sorted@).to_set() == all.take(i as int).to_set(),
            decreases rest.len() - i,
        {
            let v = rest[i].clone_violation();
            insert_violation(&mut sorted, v);
            i += 1;
            proof {
                assert(all.take(i as int) =~= all.take((i - 1) as int).push(all[i - 1]));
                broadcast use vstd::seq_lib::group_seq_properties;
                assert(all.take(i as int).to_set() =~= all.take((i - 1) as int).to_set().insert(
                    all[i - 1],
                ));
            }
        }
        proof {
            assert(all.take(i as int) =~= all);
        }
        ConsistencyReport { violations: sorted }
    }

    /// A copy of the report.
    pub fn clone_report(&self) -> (r: Self)
        ensures
            r@ == self@,
    {
        proof {
            use_type_invariant(self);
        }
        let mut violations: Vec<ConsistencyViolation> = Vec::new();
        let mut i: usize = 0;
        while i < self.violations.len()
            invariant
                i <= self.violations@.len(),
                violation_views(violations@) =~= violation_views(self.violations@).take(i as int),
            decreases self.violations.len() - i,
        {
            let c = self.violations[i].clone_violation();
            let ghost before = violations@;
            violations.push(c);
            proof {
                assert(violations@ =~= before.push(c));
                assert(violation_views(violations@) =~= violation_views(before).push(c@));
                assert(violation_views(self.violations@)[i as int] == self.violations@[i as int]@);
            }
            i += 1;
            proof {
                assert(violation_views(violations@) =~= violation_views(self.violations@).take(
                    i as int,
                ));
            }
        }
        proof {
            assert(violation_views(self.violations@).take(i as int) =~= violation_views(
                self.violations@,
            ));
        }
        ConsistencyReport { violations }
    }

    /// Whether the report has no violation.
    pub fn is_valid(&self) -> (r: bool)
        ensures
            r == (self@.len() == 0),
    {
        self.violations.len() == 0
    }

    pub fn violations(&self) -> (r: &[ConsistencyViolation])
        ensures
            violation_views(r@) == self@,
            strictly_sorted(self@),
    {
        proof {
            use_type_invariant(self);
        }
        self.violations.as_slice()
    }
}

impl ConsistencyViolation {
    /// A copy with the same code and message.
    pub fn clone_violation(&self) -> (r: Self)
        ensures
            r@ == self@,
    {
        ConsistencyViolation { code: self.code.clone(), message: self.message.clone() }
    }
}

pub struct GraphView {
    pub schema_version: Seq<char>,
    pub nodes: Seq<NodeView>,
    pub relations: Seq<RelationView>,
}

/// Node ids are ordered as byte strings, as the keys of an ordered map.
pub open spec fn id_lt(a: Seq<char>, b: Seq<char>) -> bool {
    bytes_lt(encode_utf8(a), encode_utf8(b))
}

/// The nodes are strictly increasing by id: every id occurs once.
pub open spec fn ids_sorted(nodes: Seq<NodeView>) -> bool {
    forall|i: int, j: int| 0 <= i < j < nodes.len() ==> id_lt(#[trigger] nodes[i].id, #[trigger] nodes[j].id)
}

/// Whether a node with this id is present.
pub open spec fn has_id(nodes: Seq<NodeView>, id: Seq<char>) -> bool {
    exists|i: int| 0 <= i < nodes.len() && #[trigger] nodes[i].id == id
}

pub open spec fn node_views(s: Seq<OntologyNode>) -> Seq<NodeView> {
    s.map_values(|n: OntologyNode| n@)
}

pub open spec fn relation_views(s: Seq<OntologyRelation>) -> Seq<RelationView> {
    s.map_values(|r: OntologyRelation| r@)
}

pub proof fn lemma_id_lt_facts(a: Seq<char>, b: Seq<char>, c: Seq<char>)
    ensures
        !id_lt(a, a),
        !(id_lt(a, b) && id_lt(b, a)),
        id_lt(a, b) && id_lt(b, c) ==> id_lt(a, c),
        a == b || id_lt(a, b) || id_lt(b, a),
{
    lemma_bytes_lt_irreflexive(encode_utf8(a));
    lemma_bytes_lt_asymmetric(encode_utf8(a), encode_utf8(b));
    lemma_bytes_lt_total(encode_utf8(a), encode_utf8(b));
    if id_lt(a, b) && id_lt(b, c) {
        lemma_bytes_lt_transitive(encode_utf8(a), encode_utf8(b), encode_utf8(c));
    }
    if encode_utf8(a) == encode_utf8(b) {
        lemma_encode_injective(a, b);
    }
}

/// Where an id belongs in nodes sorted by id: the first position whose id is
/// not smaller, and whether that node has the id.
fn locate(nodes: &Vec<OntologyNode>, id: &str) -> (r: (usize, bool))
    requires
        ids_sorted(node_views(nodes@)),
    ensures
        r.0 <= nodes@.len(),
        forall|k: int| 0 <= k < r.0 ==> id_lt(#[trigger] nodes@[k]@.id, id@),
        r.1 ==> r.0 < nodes@.len() && nodes@[r.0 as int]@.id == id@,
        !r.1 ==> r.0 == nodes@.len() || id_lt(id@, nodes@[r.0 as int]@.id),
        r.1 == has_id(node_views(nodes@), id@),
{
    let mut i: usize = 0;
    while i < nodes.len()
        invariant
            i <= nodes@.len(),
            forall|k: int| 0 <= k < i ==> id_lt(#[trigger] nodes@[k]@.id, id@),
        ensures
            i <= nodes@.len(),
            forall|k: int| 0 <= k < i ==> id_lt(#[trigger] nodes@[k]@.id, id@),
            i == nodes@.len() || !id_lt(nodes@[i as int]@.id, id@),
        decreases nodes.len() - i,
    {
        let o = compare_bytes(nodes[i].id.as_str().as_bytes(), id.as_bytes());
        if o != Order::Less {
            break;
        }
        i += 1;
    }
    let found = i < nodes.len() && same_text(nodes[i].id.as_str(), id);
    proof {
        let v = node_views(nodes@);
        assert forall|k: int| 0 <= k < nodes@.len() implies #[trigger] v[k] == nodes@[k]@ by {}
        if i < nodes.len() {
            lemma_id_lt_facts(nodes@[i as int]@.id, id@, id@);
        }
        if !found {
            assert forall|k: int| 0 <= k < v.len() implies #[trigger] v[k].id != id@ by {
                lemma_id_lt_facts(v[k].id, id@, id@);
                if k > i {
                    assert(id_lt(v[i as int].id, v[k].id));
                    lemma_id_lt_facts(id@, v[i as int].id, v[k].id);
                }
            }
        } else {
            assert(v[i as int].id == id@);
        }
    }
    (i, found)
}

/// A typed graph over the concepts of the reference ontology. Every node id
/// occurs once; relations name their endpoints by id.
#[derive(Debug)]
pub struct OntologyGraph {
    schema_version: String,
    nodes: Vec<OntologyNode>,
    relations: Vec<OntologyRelation>,
}

impl View for OntologyGraph {
    type V = GraphView;

    closed spec fn view(&self) -> GraphView {
        GraphView {
            schema_version: self.schema_version@,
            nodes: node_views(self.nodes@),
            relations: relation_views(self.relations@),
        }
    }
}

impl OntologyGraph {
    #[verifier::type_invariant]
    spec fn well_formed(self) -> bool {
        ids_sorted(node_views(self.nodes@))
    }

    /// An empty graph; the schema version must not be blank and at most 128
    /// bytes.
    pub fn new(schema_version: String) -> (r: Result<Self, SdkError>)
        ensures
            r is Ok <==> text_ok(schema_version@, 128),
            r matches Ok(g) ==> g@.schema_version == schema_version@ && g@.nodes.len() == 0
                && g@.relations.len() == 0,
            r matches Ok(g) ==> api_graph(g@),
            r matches Err(e) ==> text_error("ontology schema version"@, schema_version@, 128, e),
    {
        validate_text("ontology schema version", schema_version.as_str(), 128)?;
        let g = OntologyGraph { schema_version, nodes: Vec::new(), relations: Vec::new() };
        proof {
            assert(node_views(g.nodes@) =~= Seq::<NodeView>::empty());
        }
        Ok(g)
    }

    pub fn schema_version(&self) -> (r: &str)
        ensures
            r@ == self@.schema_version,
    {
        self.schema_version.as_str()
    }

    /// The nodes, in increasing id order.
    pub fn nodes(&self) -> (r: &[OntologyNode])
        ensures
            node_views(r@) == self@.nodes,
            ids_sorted(self@.nodes),
    {
        proof {
            use_type_invariant(self);
        }
        self.nodes.as_slice()
    }

    pub fn relations(&self) -> (r: &[OntologyRelation])
        ensures
            relation_views(r@) == self@.relations,
    {
        self.relations.as_slice()
    }

    /// A copy of the graph.
    pub fn clone_graph(&self) -> (r: Self)
        ensures
            r@ == self@,
    {
        proof {
            use_type_invariant(self);
        }
        let mut nodes: Vec<OntologyNode> = Vec::new();
        let mut i: usize = 0;
        while i < self.nodes.len()
            invariant
                i <= self.nodes@.len(),
                node_views(nodes@) =~= node_views(self.nodes@).take(i as int),
            decreases self.nodes.len() - i,
        {
            let ghost before = nodes@;
            let c = self.nodes[i].clone_node();
            nodes.push(c);
            proof {
                assert(node_views(nodes@) =~= node_views(before).push(c@));
                assert(node_views(nodes@) =~= node_views(self.nodes@).take(i + 1));
            }
            i += 1;
        }
        let mut relations: Vec<OntologyRelation> = Vec::new();
        let mut j: usize = 0;
        while j < self.relations.len()
            invariant
                j <= self.relations@.len(),
                relation_views(relations@) =~= relation_views(self.relations@).take(j as int),
            decreases self.relations.len() - j,
        {
            let ghost before = relations@;
            let c = self.relations[j].clone_relation();
            relations.push(c);
            proof {
                assert(relation_views(relations@) =~= relation_views(before).push(c@));
                assert(relation_views(relations@) =~= relation_views(self.relations@).take(j + 1));
            }
            j += 1;
        }
        proof {
            assert(node_views(nodes@) =~= node_views(self.nodes@));
            assert(relation_views(relations@) =~= relation_views(self.relations@));
        }
        OntologyGraph { schema_version: self.schema_version.clone(), nodes, relations }
    }

    /// Adds a node whose id is new; at most 65536 nodes.
    pub fn add_node(&mut self, node: OntologyNode) -> (r: Result<(), SdkError>)
        ensures
            r is Ok <==> old(self)@.nodes.len() < MAX_NODES && !has_id(old(self)@.nodes, node@.id),
            old(self)@.nodes.len() >= MAX_NODES ==> r == Err::<(), SdkError>(
                SdkError::DimensionLimit {
                    actual: saturating_succ(old(self)@.nodes.len()),
                    max: MAX_NODES,
                },
            ),
            old(self)@.nodes.len() < MAX_NODES && has_id(old(self)@.nodes, node@.id) ==> (r matches Err(
                SdkError::InvalidArgument(m),
            ) && m@ == "duplicate ontology node id"@),
            r is Ok ==> final(self)@.nodes.to_set() == old(self)@.nodes.to_set().insert(node@)
                && final(self)@.nodes.len() == old(self)@.nodes.len() + 1,
            r is Err ==> final(self)@ == old(self)@,
            final(self)@.schema_version == old(self)@.schema_version,
            final(self)@.relations == old(self)@.relations,
            api_graph(old(self)@) && node_ok(node@) ==> api_graph(final(self)@),
    {
        proof {
            use_type_invariant(&*self);
        }
        if self.nodes.len() >= MAX_NODES {
            return Err(
                SdkError::DimensionLimit { actual: succ_saturating(self.nodes.len()), max: MAX_NODES },
            );
        }
        let (pos, found) = locate(&self.nodes, node.id.as_str());
        if found {
            return Err(SdkError::InvalidArgument(String::from_str("duplicate ontology node id")));
        }
        let ghost old_views = node_views(self.nodes@);
        let ghost nv = node@;
        let mut nodes = Vec::new();
        std::mem::swap(&mut nodes, &mut self.nodes);
        nodes.insert(pos, node);
        proof {
            lemma_insert_sorted(old_views, pos as int, nv);
            assert(node_views(nodes@) =~= old_views.insert(pos as int, nv));
        }
        self.nodes = nodes;
        proof {
            if api_graph(old(self)@) && node_ok(nv) {
                lemma_api_graph_grows(old(self)@, self@, nv);
            }
        }
        Ok(())
    }

    /// Adds a relation between two present nodes; at most 262144 relations.
    pub fn add_relation(&mut self, relation: OntologyRelation) -> (r: Result<(), SdkError>)
        ensures
            r is Ok <==> old(self)@.relations.len() < MAX_RELATIONS && has_id(
                old(self)@.nodes,
                relation@.source,
            ) && has_id(old(self)@.nodes, relation@.target),
            old(self)@.relations.len() >= MAX_RELATIONS ==> r == Err::<(), SdkError>(
                SdkError::DimensionLimit {
                    actual: saturating_succ(old(self)@.relations.len()),
                    max: MAX_RELATIONS,
                },
            ),
            old(self)@.relations.len() < MAX_RELATIONS && !(has_id(
                old(self)@.nodes,
                relation@.source,
            ) && has_id(old(self)@.nodes, relation@.target)) ==> (r matches Err(
                SdkError::InvalidArgument(m),
            ) && m@ == "ontology relation endpoint does not exist"@),
            r is Ok ==> final(self)@.relations == old(self)@.relations.push(relation@),
            r is Err ==> final(self)@.relations == old(self)@.relations,
            final(self)@.nodes == old(self)@.nodes,
            final(self)@.schema_version == old(self)@.schema_version,
            api_graph(old(self)@) ==> api_graph(final(self)@),
    {
        proof {
            use_type_invariant(&*self);
        }
        if self.relations.len() >= MAX_RELATIONS {
            return Err(
                SdkError::DimensionLimit {
                    actual: succ_saturating(self.relations.len()),
                    max: MAX_RELATIONS,
                },
            );
        }
        let (_, source_found) = locate(&self.nodes, relation.source.as_str());
        let (_, target_found) = locate(&self.nodes, relation.target.as_str());
        if !source_found || !target_found {
            return Err(
                SdkError::InvalidArgument(
                    String::from_str("ontology relation endpoint does not exist"),
                ),
            );
        }
        let ghost before = self.relations@;
        let mut relations = Vec::new();
        std::mem::swap(&mut relations, &mut self.relations);
        relations.push(relation);
        proof {
            assert(relation_views(relations@) =~= relation_views(before).push(relation@));
        }
        self.relations = relations;
        Ok(())
    }

    /// A graph from its stored parts, as read back from a serialized form:
    /// nodes are keyed by id, a later node replacing an earlier one with the
    /// same id. No other check is made; `validate_reference_schema` reports
    /// what is wrong.
    pub fn from_parts(
        schema_version: String,
        nodes: Vec<OntologyNode>,
        relations: Vec<OntologyRelation>,
    ) -> (r: Self)
        ensures
            r@.schema_version == schema_version@,
            r@.relations == relation_views(relations@),
            forall|v: NodeView|
                r@.nodes.contains(v) <==> last_with_id(node_views(nodes@), nodes@.len() as int, v),
    {
        let mut keyed: Vec<OntologyNode> = Vec::new();
        let ghost src = node_views(nodes@);
        let mut i: usize = 0;
        while i < nodes.len()
            invariant
                i <= nodes@.len(),
                src == node_views(nodes@),
                ids_sorted(node_views(keyed@)),
                forall|v: NodeView|
                    node_views(keyed@).contains(v) <==> last_with_id(src, i as int, v),
            decreases nodes.len() - i,
        {
            let node = nodes[i].clone_node();
            let (pos, found) = locate(&keyed, node.id.as_str());
            let ghost kv = node_views(keyed@);
            if found {
                keyed.set(pos, node);
                proof {
                    assert(node_views(keyed@) =~= kv.update(pos as int, node@));
                }
            } else {
                keyed.insert(pos, node);
                proof {
                    assert(node_views(keyed@) =~= kv.insert(pos as int, node@));
                }
            }
            proof {
                assert(src[i as int] == node@);
                lemma_keyed_step(src, i as int, kv, pos as int, found);
            }
            i += 1;
        }
        OntologyGraph { schema_version, nodes: keyed, relations }
    }
}

/// `v` is the last node among the first `n` with its id.
pub open spec fn last_with_id(src: Seq<NodeView>, n: int, v: NodeView) -> bool {
    exists|a: int|
        0 <= a < n && #[trigger] src[a] == v && forall|b: int| a < b < n ==> (#[trigger] src[b]).id != v.id
}

pub open spec fn keyed_next(kv: Seq<NodeView>, pos: int, found: bool, x: NodeView) -> Seq<NodeView> {
    if found {
        kv.update(pos, x)
    } else {
        kv.insert(pos, x)
    }
}

#[verifier::spinoff_prover]
#[verifier::rlimit(60)]
proof fn lemma_keyed_step(src: Seq<NodeView>, i: int, kv: Seq<NodeView>, pos: int, found: bool)
    requires
        0 <= i < src.len(),
        ids_sorted(kv),
        forall|v: NodeView| kv.contains(v) <==> last_with_id(src, i, v),
        0 <= pos <= kv.len(),
        forall|k: int| 0 <= k < pos ==> id_lt(#[trigger] kv[k].id, src[i].id),
        found ==> pos < kv.len() && kv[pos].id == src[i].id,
        !found ==> pos == kv.len() || id_lt(src[i].id, kv[pos].id),
        found == has_id(kv, src[i].id),
    ensures
        ids_sorted(keyed_next(kv, pos, found, src[i])),
        forall|v: NodeView|
            keyed_next(kv, pos, found, src[i]).contains(v) <==> last_with_id(src, i + 1, v),
{
    let x = src[i];
    let nk = keyed_next(kv, pos, found, x);
    if found {
        lemma_update_sorted(kv, pos, x);
    } else {
        lemma_insert_sorted(kv, pos, x);
    }
    assert forall|v: NodeView| nk.contains(v) implies last_with_id(src, i + 1, v) by {
        let k = choose|k: int| 0 <= k < nk.len() && nk[k] == v;
        if v == x {
            assert(src[i] == v);
        } else {
            if found {
                assert(k != pos);
                assert(kv[k] == v);
                if v.id == x.id {
                    lemma_id_lt_facts(kv[pos].id, v.id, v.id);
                    if k < pos {
                        assert(id_lt(kv[k].id, kv[pos].id));
                    } else {
                        assert(id_lt(kv[pos].id, kv[k].id));
                    }
                }
            } else {
                if k < pos {
                    assert(kv[k] == v);
                } else {
                    assert(kv[k - 1] == v);
                }
                if v.id == x.id {
                    assert(kv.contains(v));
                    assert(has_id(kv, x.id));
                }
            }
            assert(kv.contains(v));
            assert(v.id != x.id);
            let a = choose|a: int|
                0 <= a < i && #[trigger] src[a] == v && forall|b: int| a < b < i ==> (#[trigger] src[b]).id != v.id;
            assert forall|b: int| a < b < i + 1 implies (#[trigger] src[b]).id != v.id by {
                if b < i {
                }
            }
        }
    }
    assert forall|v: NodeView| last_with_id(src, i + 1, v) implies nk.contains(v) by {
        let a = choose|a: int|
            0 <= a < i + 1 && #[trigger] src[a] == v && forall|b: int| a < b < i + 1 ==> (#[trigger] src[b]).id != v.id;
        if a == i {
            assert(nk[pos] == v);
        } else {
            assert(src[i].id != v.id);
            assert(last_with_id(src, i, v));
            assert(kv.contains(v));
            let k = choose|k: int| 0 <= k < kv.len() && kv[k] == v;
            if found {
                assert(k != pos);
                assert(nk[k] == v);
            } else if k < pos {
                assert(nk[k] == v);
            } else {
                assert(nk[k + 1] == v);
            }
        }
    }
}

/// `n + 1`, or `n` when that would not fit.
pub open spec fn saturating_succ(n: nat) -> usize {
    if n < usize::MAX {
        (n + 1) as usize
    } else {
        usize::MAX
    }
}

fn succ_saturating(n: usize) -> (r: usize)
    ensures
        r == saturating_succ(n as nat),
{
    if n < usize::MAX {
        n + 1
    } else {
        n
    }
}

impl OntologyNode {
    /// A copy of the node.
    pub fn clone_node(&self) -> (r: Self)
        ensures
            r@ == self@,
    {
        let label = match &self.label {
            Some(l) => Some(l.clone()),
            None => None,
        };
        OntologyNode { id: self.id.clone(), kind: self.kind, label }
    }
}

proof fn lemma_insert_sorted(s: Seq<NodeView>, pos: int, x: NodeView)
    requires
        ids_sorted(s),
        0 <= pos <= s.len(),
        forall|k: int| 0 <= k < pos ==> id_lt(#[trigger] s[k].id, x.id),
        pos == s.len() || id_lt(x.id, s[pos].id),
    ensures
        ids_sorted(s.insert(pos, x)),
        s.insert(pos, x).to_set() == s.to_set().insert(x),
        s.insert(pos, x).len() == s.len() + 1,
{
    let n = s.insert(pos, x);
    assert forall|a: int, b: int| 0 <= a < b < n.len() implies id_lt(
        #[trigger] n[a].id,
        #[trigger] n[b].id,
    ) by {
        if b > pos {
            if b - 1 > pos {
                assert(id_lt(s[pos].id, s[b - 1].id));
            }
            lemma_id_lt_facts(x.id, s[pos].id, s[b - 1].id);
            if a < pos {
                lemma_id_lt_facts(s[a].id, x.id, s[b - 1].id);
            }
        }
    }
    assert(n.to_set() =~= s.to_set().insert(x)) by {
        assert forall|v| n.to_set().contains(v) implies s.to_set().insert(x).contains(v) by {
            let k = choose|k: int| 0 <= k < n.len() && n[k] == v;
            if k < pos {
                assert(s[k] == v);
            } else if k > pos {
                assert(s[k - 1] == v);
            }
        }
        assert forall|v| s.to_set().insert(x).contains(v) implies n.to_set().contains(v) by {
            if v == x {
                assert(n[pos] == v);
            } else {
                let k = choose|k: int| 0 <= k < s.len() && s[k] == v;
                if k < pos {
                    assert(n[k] == v);
                } else {
                    assert(n[k + 1] == v);
                }
            }
        }
    }
}

proof fn lemma_update_sorted(s: Seq<NodeView>, pos: int, x: NodeView)
    requires
        ids_sorted(s),
        0 <= pos < s.len(),
        s[pos].id == x.id,
    ensures
        ids_sorted(s.update(pos, x)),
{
}

/// The relations the reference schema allows, with their endpoint kinds.
pub open spec fn relation_allowed(source: ConceptKind, relation: RelationKind, target: ConceptKind) -> bool {
    match (source, relation, target) {
        (ConceptKind::Observation, RelationKind::Contains, ConceptKind::FeatureSet) => true,
        (ConceptKind::SignalEvent, RelationKind::DerivedFrom, ConceptKind::Observation) => true,
        (ConceptKind::SignalEvent, RelationKind::ClassifiedAs, ConceptKind::SignalClass) => true,
        (ConceptKind::SignalEvent, RelationKind::HasEmbedding, ConceptKind::Embedding) => true,
        (ConceptKind::SignalEvent, RelationKind::BelongsTo, ConceptKind::Pattern) => true,
        (ConceptKind::Pattern, RelationKind::ComposedOf, ConceptKind::SignalEvent) => true,
        (ConceptKind::SignalEvent, RelationKind::SupportedBy, ConceptKind::Evidence) => true,
        (ConceptKind::Evidence, RelationKind::Supports, ConceptKind::SignalEvent) => true,
        _ => false,
    }
}

/// How many relations of a kind one source may have, where the schema limits it.
pub open spec fn cardinality_limit(relation: RelationKind) -> Option<usize> {
    match relation {
        RelationKind::DerivedFrom | RelationKind::ClassifiedAs | RelationKind::HasEmbedding => Some(1),
        _ => None,
    }
}

/// Whether the reference schema allows `relation` from a `source` node to a
/// `target` node.
pub fn allowed_relation(source: ConceptKind, relation: RelationKind, target: ConceptKind) -> (r: bool)
    ensures
        r == relation_allowed(source, relation, target),
{
    match (source, relation, target) {
        (ConceptKind::Observation, RelationKind::Contains, ConceptKind::FeatureSet) => true,
        (ConceptKind::SignalEvent, RelationKind::DerivedFrom, ConceptKind::Observation) => true,
        (ConceptKind::SignalEvent, RelationKind::ClassifiedAs, ConceptKind::SignalClass) => true,
        (ConceptKind::SignalEvent, RelationKind::HasEmbedding, ConceptKind::Embedding) => true,
        (ConceptKind::SignalEvent, RelationKind::BelongsTo, ConceptKind::Pattern) => true,
        (ConceptKind::Pattern, RelationKind::ComposedOf, ConceptKind::SignalEvent) => true,
        (ConceptKind::SignalEvent, RelationKind::SupportedBy, ConceptKind::Evidence) => true,
        (ConceptKind::Evidence, RelationKind::Supports, ConceptKind::SignalEvent) => true,
        _ => false,
    }
}

/// The most relations of this kind that one source may have, if limited.
pub fn max_cardinality(relation: RelationKind) -> (r: Option<usize>)
    ensures
        r == cardinality_limit(relation),
{
    match relation {
        RelationKind::DerivedFrom | RelationKind::ClassifiedAs | RelationKind::HasEmbedding => Some(1),
        _ => None,
    }
}

/// The position of a relation kind in declaration order.
pub open spec fn relation_index(r: RelationKind) -> int {
    match r {
        RelationKind::Contains => 0,
        RelationKind::ClassifiedAs => 1,
        RelationKind::HasEmbedding => 2,
        RelationKind::BelongsTo => 3,
        RelationKind::ComposedOf => 4,
        RelationKind::SupportedBy => 5,
        RelationKind::Supports => 6,
        RelationKind::DerivedFrom => 7,
    }
}

fn relation_position(r: RelationKind) -> (i: usize)
    ensures
        i == relation_index(r),
{
    match r {
        RelationKind::Contains => 0,
        RelationKind::ClassifiedAs => 1,
        RelationKind::HasEmbedding => 2,
        RelationKind::BelongsTo => 3,
        RelationKind::ComposedOf => 4,
        RelationKind::SupportedBy => 5,
        RelationKind::Supports => 6,
        RelationKind::DerivedFrom => 7,
    }
}

fn relation_at(i: usize) -> (r: RelationKind)
    requires
        i < 8,
    ensures
        relation_index(r) == i,
{
    if i == 0 {
        RelationKind::Contains
    } else if i == 1 {
        RelationKind::ClassifiedAs
    } else if i == 2 {
        RelationKind::HasEmbedding
    } else if i == 3 {
        RelationKind::BelongsTo
    } else if i == 4 {
        RelationKind::ComposedOf
    } else if i == 5 {
        RelationKind::SupportedBy
    } else if i == 6 {
        RelationKind::Supports
    } else {
        RelationKind::DerivedFrom
    }
}

/// The debug name of a relation kind.
pub open spec fn relation_name(r: RelationKind) -> Seq<char> {
    match r {
        RelationKind::Contains => "Contains"@,
        RelationKind::ClassifiedAs => "ClassifiedAs"@,
        RelationKind::HasEmbedding => "HasEmbedding"@,
        RelationKind::BelongsTo => "BelongsTo"@,
        RelationKind::ComposedOf => "ComposedOf"@,
        RelationKind::SupportedBy => "SupportedBy"@,
        RelationKind::Supports => "Supports"@,
        RelationKind::DerivedFrom => "DerivedFrom"@,
    }
}

/// The debug name of a concept kind.
pub open spec fn concept_name(k: ConceptKind) -> Seq<char> {
    match k {
        ConceptKind::Observation => "Observation"@,
        ConceptKind::FeatureSet => "FeatureSet"@,
        ConceptKind::SignalEvent => "SignalEvent"@,
        ConceptKind::SignalClass => "SignalClass"@,
        ConceptKind::Embedding => "Embedding"@,
        ConceptKind::Pattern => "Pattern"@,
        ConceptKind::Evidence => "Evidence"@,
    }
}

fn relation_name_text(r: RelationKind) -> (s: &'static str)
    ensures
        s@ == relation_name(r),
{
    match r {
        RelationKind::Contains => "Contains",
        RelationKind::ClassifiedAs => "ClassifiedAs",
        RelationKind::HasEmbedding => "HasEmbedding",
        RelationKind::BelongsTo => "BelongsTo",
        RelationKind::ComposedOf => "ComposedOf",
        RelationKind::SupportedBy => "SupportedBy",
        RelationKind::Supports => "Supports",
        RelationKind::DerivedFrom => "DerivedFrom",
    }
}

fn concept_name_text(k: ConceptKind) -> (s: &'static str)
    ensures
        s@ == concept_name(k),
{
    match k {
        ConceptKind::Observation => "Observation",
        ConceptKind::FeatureSet => "FeatureSet",
        ConceptKind::SignalEvent => "SignalEvent",
        ConceptKind::SignalClass => "SignalClass",
        ConceptKind::Embedding => "Embedding",
        ConceptKind::Pattern => "Pattern",
        ConceptKind::Evidence => "Evidence",
    }
}

pub open spec fn finding(code: Seq<char>, message: Seq<char>) -> ViolationView {
    ViolationView { code, message }
}

pub open spec fn schema_version_finding() -> ViolationView {
    finding("schema-version"@, "unexpected ontology schema version"@)
}

pub open spec fn node_limit_finding() -> ViolationView {
    finding("node-limit"@, "ontology node limit exceeded"@)
}

pub open spec fn relation_limit_finding() -> ViolationView {
    finding("relation-limit"@, "ontology relation limit exceeded"@)
}

pub open spec fn node_id_finding() -> ViolationView {
    finding("node-id"@, "ontology node id is invalid or does not match its map key"@)
}

pub open spec fn node_label_finding() -> ViolationView {
    finding("node-label"@, "ontology node label is invalid"@)
}

pub open spec fn missing_endpoint_finding() -> ViolationView {
    finding("missing-endpoint"@, "ontology relation endpoint is missing"@)
}

/// "relation R is not allowed from S to T", with debug names.
pub open spec fn relation_schema_finding(
    relation: RelationKind,
    source: ConceptKind,
    target: ConceptKind,
) -> ViolationView {
    finding(
        "relation-schema"@,
        "relation "@ + relation_name(relation) + " is not allowed from "@ + concept_name(source)
            + " to "@ + concept_name(target),
    )
}

/// "source S has N R relations".
pub open spec fn cardinality_finding(source: Seq<char>, count: nat, relation: RelationKind) -> ViolationView {
    finding(
        "cardinality"@,
        "source "@ + source + " has "@ + decimal(count) + " "@ + relation_name(relation)
            + " relations"@,
    )
}

/// The node with this id (meaningful when there is one).
pub open spec fn node_with_id(nodes: Seq<NodeView>, id: Seq<char>) -> NodeView {
    nodes[choose|i: int| 0 <= i < nodes.len() && nodes[i].id == id]
}

/// Both endpoints of the relation are nodes of the graph.
pub open spec fn resolved(g: GraphView, r: RelationView) -> bool {
    has_id(g.nodes, r.source) && has_id(g.nodes, r.target)
}

/// What the schema check reports of one relation on its own.
pub open spec fn relation_finding(g: GraphView, r: RelationView) -> Option<ViolationView> {
    if !resolved(g, r) {
        Some(missing_endpoint_finding())
    } else if !relation_allowed(
        node_with_id(g.nodes, r.source).kind,
        r.relation,
        node_with_id(g.nodes, r.target).kind,
    ) {
        Some(
            relation_schema_finding(
                r.relation,
                node_with_id(g.nodes, r.source).kind,
                node_with_id(g.nodes, r.target).kind,
            ),
        )
    } else {
        None
    }
}

/// How many of the relations `rels` are resolved in `g`, start at `source`
/// and have kind `relation`.
pub open spec fn count_among(
    g: GraphView,
    rels: Seq<RelationView>,
    source: Seq<char>,
    relation: RelationKind,
) -> nat
    decreases rels.len(),
{
    if rels.len() == 0 {
        0
    } else {
        count_among(g, rels.drop_last(), source, relation) + if resolved(g, rels.last())
            && rels.last().source == source && rels.last().relation == relation {
            1nat
        } else {
            0nat
        }
    }
}

/// How many of the first `upto` relations are resolved, start at `source`
/// and have kind `relation`.
pub open spec fn relation_count(g: GraphView, upto: int, source: Seq<char>, relation: RelationKind) -> nat {
    count_among(g, g.relations.take(upto), source, relation)
}

/// The relation's source has more relations of its kind than the schema allows.
pub open spec fn over_limit(g: GraphView, r: RelationView) -> bool {
    resolved(g, r) && cardinality_limit(r.relation) is Some && relation_count(
        g,
        g.relations.len() as int,
        r.source,
        r.relation,
    ) > cardinality_limit(r.relation)->0
}

pub open spec fn schema_version_findings(g: GraphView) -> Set<ViolationView> {
    if g.schema_version != "sigint-ontology-v1"@ {
        set![schema_version_finding()]
    } else {
        Set::empty()
    }
}

/// Findings about the first `upto` nodes.
pub open spec fn node_findings(g: GraphView, upto: int) -> Set<ViolationView> {
    Set::new(
        |v: ViolationView|
            (v == node_id_finding() && exists|i: int|
                0 <= i < upto && !text_ok(#[trigger] g.nodes[i].id, MAX_ID_BYTES as nat)) || (v
                == node_label_finding() && exists|i: int|
                0 <= i < upto && !label_ok(#[trigger] g.nodes[i].label, MAX_LABEL_BYTES as nat)),
    )
}

/// Findings about the first `upto` relations on their own.
pub open spec fn relation_findings(g: GraphView, upto: int) -> Set<ViolationView> {
    Set::new(
        |v: ViolationView|
            exists|j: int| 0 <= j < upto && relation_finding(g, #[trigger] g.relations[j]) == Some(v),
    )
}

/// Cardinality findings.
pub open spec fn cardinality_findings(g: GraphView) -> Set<ViolationView> {
    Set::new(
        |v: ViolationView|
            exists|j: int|
                0 <= j < g.relations.len() && over_limit(g, #[trigger] g.relations[j]) && v
                    == cardinality_finding(
                    g.relations[j].source,
                    relation_count(g, g.relations.len() as int, g.relations[j].source, g.relations[j].relation),
                    g.relations[j].relation,
                ),
    )
}

/// Everything the reference-schema check reports of a graph. When the graph
/// is over a size limit, the check stops there.
pub open spec fn schema_findings(g: GraphView) -> Set<ViolationView> {
    if g.nodes.len() > MAX_NODES {
        schema_version_findings(g).insert(node_limit_finding())
    } else if g.relations.len() > MAX_RELATIONS {
        schema_version_findings(g).insert(relation_limit_finding())
    } else {
        schema_version_findings(g) + node_findings(g, g.nodes.len() as int) + relation_findings(
            g,
            g.relations.len() as int,
        ) + cardinality_findings(g)
    }
}

/// A node as `OntologyNode::new` admits it: a valid id and label.
pub open spec fn node_ok(n: NodeView) -> bool {
    text_ok(n.id, MAX_ID_BYTES as nat) && label_ok(n.label, MAX_LABEL_BYTES as nat)
}

/// A graph as `new`, `add_node` and `add_relation` build it: within the size
/// limits, every node valid, and every relation between present nodes.
pub open spec fn api_graph(g: GraphView) -> bool {
    &&& g.nodes.len() <= MAX_NODES
    &&& g.relations.len() <= MAX_RELATIONS
    &&& forall|i: int| 0 <= i < g.nodes.len() ==> node_ok(#[trigger] g.nodes[i])
    &&& forall|j: int| 0 <= j < g.relations.len() ==> resolved(g, #[trigger] g.relations[j])
}

proof fn lemma_api_graph_grows(old: GraphView, new: GraphView, n: NodeView)
    requires
        api_graph(old),
        node_ok(n),
        old.nodes.len() < MAX_NODES,
        new.nodes.to_set() == old.nodes.to_set().insert(n),
        new.nodes.len() == old.nodes.len() + 1,
        new.relations == old.relations,
    ensures
        api_graph(new),
{
    assert forall|i: int| 0 <= i < new.nodes.len() implies node_ok(#[trigger] new.nodes[i]) by {
        assert(new.nodes.to_set().contains(new.nodes[i]));
        if new.nodes[i] != n {
            assert(old.nodes.to_set().contains(new.nodes[i]));
            let k = choose|k: int| 0 <= k < old.nodes.len() && old.nodes[k] == new.nodes[i];
            assert(node_ok(old.nodes[k]));
        }
    }
    assert forall|id: Seq<char>| has_id(old.nodes, id) implies has_id(new.nodes, id) by {
        let k = choose|k: int| 0 <= k < old.nodes.len() && #[trigger] old.nodes[k].id == id;
        assert(old.nodes.to_set().contains(old.nodes[k]));
        assert(new.nodes.to_set().contains(old.nodes[k]));
        let m = choose|m: int| 0 <= m < new.nodes.len() && new.nodes[m] == old.nodes[k];
        assert(new.nodes[m].id == id);
    }
    assert forall|j: int| 0 <= j < new.relations.len() implies resolved(new, #[trigger] new.relations[j]) by {
        assert(resolved(old, old.relations[j]));
    }
}

/// The reference-schema check of a graph built by the API reports nothing
/// exactly when the schema version is `sigint-ontology-v1`, every relation
/// joins kinds that the schema allows, and no source has more relations of a
/// limited kind than its limit.
pub proof fn lemma_api_graph_validity(g: GraphView)
    requires
        api_graph(g),
    ensures
        schema_findings(g) == Set::<ViolationView>::empty() <==> {
            &&& g.schema_version == "sigint-ontology-v1"@
            &&& forall|j: int|
                0 <= j < g.relations.len() ==> relation_allowed(
                    node_with_id(g.nodes, (#[trigger] g.relations[j]).source).kind,
                    g.relations[j].relation,
                    node_with_id(g.nodes, g.relations[j].target).kind,
                )
            &&& forall|j: int|
                0 <= j < g.relations.len() ==> (cardinality_limit((#[trigger] g.relations[j]).relation)
                    matches Some(m) ==> relation_count(
                    g,
                    g.relations.len() as int,
                    g.relations[j].source,
                    g.relations[j].relation,
                ) <= m)
        },
{
    let all_allowed = forall|j: int|
        0 <= j < g.relations.len() ==> relation_allowed(
            node_with_id(g.nodes, (#[trigger] g.relations[j]).source).kind,
            g.relations[j].relation,
            node_with_id(g.nodes, g.relations[j].target).kind,
        );
    let within_limits = forall|j: int|
        0 <= j < g.relations.len() ==> (cardinality_limit((#[trigger] g.relations[j]).relation)
            matches Some(m) ==> relation_count(
            g,
            g.relations.len() as int,
            g.relations[j].source,
            g.relations[j].relation,
        ) <= m);
    let sf = schema_findings(g);
    assert(node_findings(g, g.nodes.len() as int) =~= Set::<ViolationView>::empty()) by {
        assert forall|i: int| 0 <= i < g.nodes.len() implies text_ok(#[trigger] g.nodes[i].id, MAX_ID_BYTES as nat)
            && label_ok(g.nodes[i].label, MAX_LABEL_BYTES as nat) by {
            assert(node_ok(g.nodes[i]));
        }
    }
    assert(sf == schema_version_findings(g) + node_findings(g, g.nodes.len() as int) + relation_findings(
        g,
        g.relations.len() as int,
    ) + cardinality_findings(g));
    if g.schema_version == "sigint-ontology-v1"@ && all_allowed && within_limits {
        assert(schema_version_findings(g) =~= Set::<ViolationView>::empty());
        assert(relation_findings(g, g.relations.len() as int) =~= Set::<ViolationView>::empty()) by {
            assert forall|j: int| 0 <= j < g.relations.len() implies relation_finding(g, #[trigger] g.relations[j])
                is None by {
                assert(resolved(g, g.relations[j]));
            }
        }
        assert(cardinality_findings(g) =~= Set::<ViolationView>::empty()) by {
            assert forall|j: int| 0 <= j < g.relations.len() implies !over_limit(g, #[trigger] g.relations[j]) by {
            }
        }
        assert(sf =~= Set::<ViolationView>::empty());
    }
    if g.schema_version != "sigint-ontology-v1"@ {
        assert(schema_version_findings(g).contains(schema_version_finding()));
        assert(sf.contains(schema_version_finding()));
    }
    if !all_allowed {
        let j = choose|j: int|
            0 <= j < g.relations.len() && !relation_allowed(
                node_with_id(g.nodes, (#[trigger] g.relations[j]).source).kind,
                g.relations[j].relation,
                node_with_id(g.nodes, g.relations[j].target).kind,
            );
        assert(resolved(g, g.relations[j]));
        let v = relation_finding(g, g.relations[j])->0;
        assert(relation_findings(g, g.relations.len() as int).contains(v));
        assert(sf.contains(v));
    }
    if !within_limits {
        let j = choose|j: int|
            0 <= j < g.relations.len() && !(cardinality_limit((#[trigger] g.relations[j]).relation)
                matches Some(m) ==> relation_count(
                g,
                g.relations.len() as int,
                g.relations[j].source,
                g.relations[j].relation,
            ) <= m);
        assert(resolved(g, g.relations[j]));
        assert(over_limit(g, g.relations[j]));
        let v = cardinality_finding(
            g.relations[j].source,
            relation_count(g, g.relations.len() as int, g.relations[j].source, g.relations[j].relation),
            g.relations[j].relation,
        );
        assert(cardinality_findings(g).contains(v));
        assert(sf.contains(v));
    }
}

pub open spec fn relation_of(i: int) -> RelationKind {
    if i == 0 {
        RelationKind::Contains
    } else if i == 1 {
        RelationKind::ClassifiedAs
    } else if i == 2 {
        RelationKind::HasEmbedding
    } else if i == 3 {
        RelationKind::BelongsTo
    } else if i == 4 {
        RelationKind::ComposedOf
    } else if i == 5 {
        RelationKind::SupportedBy
    } else if i == 6 {
        RelationKind::Supports
    } else {
        RelationKind::DerivedFrom
    }
}

proof fn lemma_relation_index(r: RelationKind)
    ensures
        0 <= relation_index(r) < 8,
        relation_of(relation_index(r)) == r,
{
}

/// The position of the node with this id (meaningful when there is one).
pub open spec fn id_position(nodes: Seq<NodeView>, id: Seq<char>) -> int {
    choose|i: int| 0 <= i < nodes.len() && nodes[i].id == id
}

proof fn lemma_unique_id(nodes: Seq<NodeView>, p: int, id: Seq<char>)
    requires
        ids_sorted(nodes),
        0 <= p < nodes.len(),
        nodes[p].id == id,
    ensures
        has_id(nodes, id),
        id_position(nodes, id) == p,
        node_with_id(nodes, id) == nodes[p],
        forall|q: int| 0 <= q < nodes.len() && q != p ==> #[trigger] nodes[q].id != id,
{
    assert forall|q: int| 0 <= q < nodes.len() && q != p implies #[trigger] nodes[q].id != id by {
        lemma_id_lt_facts(id, id, id);
        if q < p {
            assert(id_lt(nodes[q].id, nodes[p].id));
        } else {
            assert(id_lt(nodes[p].id, nodes[q].id));
        }
    }
    assert(nodes[p].id == id);
    let c = id_position(nodes, id);
    assert(0 <= c < nodes.len() && nodes[c].id == id);
}

/// Cardinality findings of relations whose source position and kind index,
/// as `8 * position + index`, lie below `upto`.
pub open spec fn cardinality_findings_below(g: GraphView, upto: int) -> Set<ViolationView> {
    Set::new(
        |v: ViolationView|
            exists|j: int|
                0 <= j < g.relations.len() && over_limit(g, #[trigger] g.relations[j]) && 8
                    * id_position(g.nodes, g.relations[j].source) + relation_index(
                    g.relations[j].relation,
                ) < upto && v == cardinality_finding(
                    g.relations[j].source,
                    relation_count(g, g.relations.len() as int, g.relations[j].source, g.relations[j].relation),
                    g.relations[j].relation,
                ),
    )
}

proof fn lemma_count_nonzero(g: GraphView, rels: Seq<RelationView>, source: Seq<char>, relation: RelationKind)
    requires
        count_among(g, rels, source, relation) > 0,
    ensures
        exists|j: int|
            0 <= j < rels.len() && resolved(g, #[trigger] rels[j]) && rels[j].source == source
                && rels[j].relation == relation,
    decreases rels.len(),
{
    let l = rels.last();
    if resolved(g, l) && l.source == source && l.relation == relation {
        assert(rels[rels.len() - 1] == l);
    } else {
        lemma_count_nonzero(g, rels.drop_last(), source, relation);
        let j = choose|j: int|
            0 <= j < rels.drop_last().len() && resolved(g, #[trigger] rels.drop_last()[j])
                && rels.drop_last()[j].source == source && rels.drop_last()[j].relation == relation;
        assert(rels[j] == rels.drop_last()[j]);
    }
}

impl OntologyGraph {
    fn check_nodes(&self, out: &mut Vec<ConsistencyViolation>)
        requires
            strictly_sorted(violation_views(old(out)@)),
        ensures
            strictly_sorted(violation_views(final(out)@)),
            violation_views(final(out)@).to_set() == violation_views(old(out)@).to_set()
                + node_findings(self@, self@.nodes.len() as int),
    {
        let ghost g = self@;
        let ghost start = violation_views(out@).to_set();
        let mut i: usize = 0;
        proof {
            assert(node_findings(g, 0) =~= Set::<ViolationView>::empty());
            assert(start + node_findings(g, 0) =~= start);
        }
        while i < self.nodes.len()
            invariant
                i <= self.nodes@.len(),
                g == self@,
                strictly_sorted(violation_views(out@)),
                violation_views(out@).to_set() == start + node_findings(g, i as int),
            decreases self.nodes.len() - i,
        {
            let node = &self.nodes[i];
            assert(g.nodes[i as int] == node@);
            let id_bad = validate_text("ontology node id", node.id.as_str(), MAX_ID_BYTES).is_err();
            if id_bad {
                insert_violation(
                    out,
                    raw_violation(
                        "node-id",
                        "ontology node id is invalid or does not match its map key",
                    ),
                );
            }
            let label_bad = match &node.label {
                Some(label) => validate_text(
                    "ontology node label",
                    label.as_str(),
                    MAX_LABEL_BYTES,
                ).is_err(),
                None => false,
            };
            if label_bad {
                insert_violation(out, raw_violation("node-label", "ontology node label is invalid"));
            }
            proof {
                let before = node_findings(g, i as int);
                let after = node_findings(g, i + 1);
                assert(id_bad == !text_ok(g.nodes[i as int].id, MAX_ID_BYTES as nat));
                assert(label_bad == !label_ok(g.nodes[i as int].label, MAX_LABEL_BYTES as nat));
                let mut add = before;
                if id_bad {
                    add = add.insert(node_id_finding());
                }
                if label_bad {
                    add = add.insert(node_label_finding());
                }
                assert(after =~= add);
            }
            i += 1;
        }
    }

    fn check_relations(&self, out: &mut Vec<ConsistencyViolation>) -> (counts: Vec<usize>)
        requires
            strictly_sorted(violation_views(old(out)@)),
            self@.nodes.len() <= MAX_NODES,
            self@.relations.len() <= MAX_RELATIONS,
        ensures
            strictly_sorted(violation_views(final(out)@)),
            violation_views(final(out)@).to_set() == violation_views(old(out)@).to_set()
                + relation_findings(self@, self@.relations.len() as int),
            counts@.len() == 8 * self@.nodes.len(),
            forall|x: int|
                0 <= x < counts@.len() ==> #[trigger] counts@[x] == relation_count(
                    self@,
                    self@.relations.len() as int,
                    self@.nodes[x / 8].id,
                    relation_of(x % 8),
                ),
    {
        proof {
            use_type_invariant(self);
        }
        let ghost g = self@;
        let ghost start = violation_views(out@).to_set();
        let total = self.nodes.len() * 8;
        let mut counts: Vec<usize> = Vec::new();
        let mut z: usize = 0;
        while z < total
            invariant
                z <= total,
                total == 8 * g.nodes.len(),
                counts@.len() == z,
                forall|x: int| 0 <= x < z ==> #[trigger] counts@[x] == 0,
            decreases total - z,
        {
            counts.push(0);
            z += 1;
        }
        let mut j: usize = 0;
        proof {
            assert(relation_findings(g, 0) =~= Set::<ViolationView>::empty());
            assert(start + relation_findings(g, 0) =~= start);
            assert forall|x: int| 0 <= x < counts@.len() implies #[trigger] counts@[x]
                == relation_count(g, 0, g.nodes[x / 8].id, relation_of(x % 8)) by {
                assert(g.relations.take(0).len() == 0);
            }
        }
        while j < self.relations.len()
            invariant
                j <= self.relations@.len(),
                g == self@,
                ids_sorted(g.nodes),
                g.nodes.len() <= MAX_NODES,
                g.relations.len() <= MAX_RELATIONS,
                strictly_sorted(violation_views(out@)),
                violation_views(out@).to_set() == start + relation_findings(g, j as int),
                counts@.len() == 8 * g.nodes.len(),
                forall|x: int|
                    0 <= x < counts@.len() ==> #[trigger] counts@[x] == relation_count(
                        g,
                        j as int,
                        g.nodes[x / 8].id,
                        relation_of(x % 8),
                    ),
                forall|x: int| 0 <= x < counts@.len() ==> #[trigger] counts@[x] <= j,
            decreases self.relations.len() - j,
        {
            let rel = &self.relations[j];
            let ghost rv = rel@;
            assert(g.relations[j as int] == rv);
            let (ps, found_source) = locate(&self.nodes, rel.source.as_str());
            let (pt, found_target) = locate(&self.nodes, rel.target.as_str());
            let ghost before_counts = counts@;
            proof {
                assert forall|k: int| 0 <= k < g.nodes.len() implies #[trigger] g.nodes[k] == self.nodes@[k]@ by {}
                assert(g.relations.take(j + 1).drop_last() =~= g.relations.take(j as int));
                assert(g.relations.take(j + 1).last() == rv);
            }
            if !found_source || !found_target {
                insert_violation(
                    out,
                    raw_violation("missing-endpoint", "ontology relation endpoint is missing"),
                );
                proof {
                    assert(!resolved(g, rv));
                    assert(relation_finding(g, rv) == Some(missing_endpoint_finding()));
                    assert forall|x: int| 0 <= x < counts@.len() implies #[trigger] counts@[x]
                        == relation_count(g, j + 1, g.nodes[x / 8].id, relation_of(x % 8)) by {
                        assert(relation_count(g, j + 1, g.nodes[x / 8].id, relation_of(x % 8))
                            == relation_count(g, j as int, g.nodes[x / 8].id, relation_of(x % 8)));
                    }
                }
            } else {
                let source_kind = self.nodes[ps].kind;
                let target_kind = self.nodes[pt].kind;
                proof {
                    lemma_unique_id(g.nodes, ps as int, rv.source);
                    lemma_unique_id(g.nodes, pt as int, rv.target);
                    assert(resolved(g, rv));
                }
                if !allowed_relation(source_kind, rel.relation, target_kind) {
                    let message = String::from_str("relation ").concat(
                        relation_name_text(rel.relation),
                    ).concat(" is not allowed from ").concat(concept_name_text(source_kind)).concat(
                        " to ",
                    ).concat(concept_name_text(target_kind));
                    let v = ConsistencyViolation {
                        code: String::from_str("relation-schema"),
                        message,
                    };
                    proof {
                        assert(v@ == relation_schema_finding(rv.relation, source_kind, target_kind));
                    }
                    insert_violation(out, v);
                }
                let x = ps * 8 + relation_position(rel.relation);
                let c = counts[x];
                counts.set(x, c + 1);
                proof {
                    lemma_relation_index(rv.relation);
                    assert(x / 8 == ps as int);
                    assert(x % 8 == relation_index(rv.relation));
                    assert forall|y: int| 0 <= y < counts@.len() implies #[trigger] counts@[y]
                        == relation_count(g, j + 1, g.nodes[y / 8].id, relation_of(y % 8)) by {
                        let id = g.nodes[y / 8].id;
                        let k = relation_of(y % 8);
                        assert(relation_count(g, j + 1, id, k) == relation_count(g, j as int, id, k)
                            + if resolved(g, rv) && rv.source == id && rv.relation == k {
                            1nat
                        } else {
                            0nat
                        });
                        if y == x {
                            assert(rv.source == id);
                        } else {
                            assert(before_counts[y] == counts@[y]);
                            if y / 8 != ps as int {
                                assert(g.nodes[y / 8].id != rv.source);
                            } else {
                                assert(y % 8 != x % 8);
                                if k == rv.relation {
                                    lemma_relation_index(k);
                                }
                            }
                        }
                    }
                }
            }
            proof {
                let before = relation_findings(g, j as int);
                let after = relation_findings(g, j + 1);
                match relation_finding(g, rv) {
                    Some(f) => {
                        assert(after =~= before.insert(f));
                    },
                    None => {
                        assert(after =~= before);
                    },
                }
            }
            j += 1;
        }
        proof {
            assert(g.relations.take(j as int) =~= g.relations);
        }
        counts
    }
}

impl OntologyGraph {
    fn check_cardinality(&self, out: &mut Vec<ConsistencyViolation>, counts: &Vec<usize>)
        requires
            strictly_sorted(violation_views(old(out)@)),
            self@.nodes.len() <= MAX_NODES,
            counts@.len() == 8 * self@.nodes.len(),
            forall|x: int|
                0 <= x < counts@.len() ==> #[trigger] counts@[x] == relation_count(
                    self@,
                    self@.relations.len() as int,
                    self@.nodes[x / 8].id,
                    relation_of(x % 8),
                ),
        ensures
            strictly_sorted(violation_views(final(out)@)),
            violation_views(final(out)@).to_set() == violation_views(old(out)@).to_set()
                + cardinality_findings(self@),
    {
        proof {
            use_type_invariant(self);
        }
        let ghost g = self@;
        let ghost m = g.relations.len() as int;
        let ghost start = violation_views(out@).to_set();
        let total = counts.len();
        let mut x: usize = 0;
        proof {
            assert(cardinality_findings_below(g, 0) =~= Set::<ViolationView>::empty());
            assert(start + cardinality_findings_below(g, 0) =~= start);
        }
        while x < total
            invariant
                x <= total,
                total == counts@.len(),
                g == self@,
                m == g.relations.len(),
                ids_sorted(g.nodes),
                counts@.len() == 8 * g.nodes.len(),
                forall|y: int|
                    0 <= y < counts@.len() ==> #[trigger] counts@[y] == relation_count(
                        g,
                        m,
                        g.nodes[y / 8].id,
                        relation_of(y % 8),
                    ),
                strictly_sorted(violation_views(out@)),
                violation_views(out@).to_set() == start + cardinality_findings_below(g, x as int),
            decreases total - x,
        {
            let si = x / 8;
            let kind = relation_at(x % 8);
            let count = counts[x];
            let mut added = false;
            proof {
                assert(g.nodes[si as int] == self.nodes@[si as int]@);
            }
            if let Some(limit) = max_cardinality(kind) {
                if count > limit {
                    let mut message = String::from_str("source ");
                    message.append(self.nodes[si].id.as_str());
                    message.append(" has ");
                    push_decimal_digits(&mut message, count as u64);
                    message.append(" ");
                    message.append(relation_name_text(kind));
                    message.append(" relations");
                    let v = ConsistencyViolation { code: String::from_str("cardinality"), message };
                    proof {
                        assert(v@.message =~= "source "@ + g.nodes[si as int].id + " has "@ + decimal(count as nat) + " "@
                            + relation_name(kind) + " relations"@);
                        assert(v@ == cardinality_finding(g.nodes[si as int].id, count as nat, kind));
                    }
                    insert_violation(out, v);
                    added = true;
                }
            }
            proof {
                let id = g.nodes[si as int].id;
                let before = cardinality_findings_below(g, x as int);
                let after = cardinality_findings_below(g, x + 1);
                let f = cardinality_finding(id, count as nat, kind);
                assert(count == relation_count(g, m, id, kind));
                if added {
                    assert(count > 0);
                    lemma_count_nonzero(g, g.relations.take(m), id, kind);
                    let j = choose|j: int|
                        0 <= j < g.relations.take(m).len() && resolved(g, #[trigger] g.relations.take(m)[j])
                            && g.relations.take(m)[j].source == id && g.relations.take(m)[j].relation == kind;
                    assert(g.relations[j] == g.relations.take(m)[j]);
                    lemma_unique_id(g.nodes, si as int, id);
                    lemma_relation_index(kind);
                    assert(over_limit(g, g.relations[j]));
                    assert(after.contains(f));
                }
                assert forall|v: ViolationView| after.contains(v) implies #[trigger] before.insert(f).contains(v)
                    && (added || before.contains(v)) by {
                    let j = choose|j: int|
                        0 <= j < g.relations.len() && over_limit(g, #[trigger] g.relations[j]) && 8
                            * id_position(g.nodes, g.relations[j].source) + relation_index(
                            g.relations[j].relation,
                        ) < x + 1 && v == cardinality_finding(
                            g.relations[j].source,
                            relation_count(g, m, g.relations[j].source, g.relations[j].relation),
                            g.relations[j].relation,
                        );
                    let r = g.relations[j];
                    let p = id_position(g.nodes, r.source);
                    lemma_relation_index(r.relation);
                    if 8 * p + relation_index(r.relation) == x {
                        assert(p == si);
                        assert(relation_index(r.relation) == x % 8);
                        assert(r.relation == kind);
                        assert(g.nodes[p].id == r.source);
                        assert(v == f);
                        assert(added);
                    } else {
                        assert(before.contains(v));
                    }
                }
                if added {
                    assert(after =~= before.insert(f));
                } else {
                    assert(after =~= before);
                }
            }
            x += 1;
        }
        proof {
            assert forall|v: ViolationView| cardinality_findings(g).contains(v) implies #[trigger] cardinality_findings_below(g, x as int).contains(v) by {
                let j = choose|j: int|
                    0 <= j < g.relations.len() && over_limit(g, #[trigger] g.relations[j]) && v
                        == cardinality_finding(
                        g.relations[j].source,
                        relation_count(g, m, g.relations[j].source, g.relations[j].relation),
                        g.relations[j].relation,
                    );
                let r = g.relations[j];
                let p = id_position(g.nodes, r.source);
                assert(has_id(g.nodes, r.source));
                assert(0 <= p < g.nodes.len());
                lemma_relation_index(r.relation);
            }
            assert(cardinality_findings_below(g, x as int) =~= cardinality_findings(g));
        }
    }

    /// Checks the graph against the reference schema: schema version, size
    /// limits, node ids and labels, relation endpoints and kinds, and
    /// cardinalities. The report holds every finding once, in order.
    pub fn validate_reference_schema(&self) -> (r: ConsistencyReport)
        ensures
            strictly_sorted(r@),
            r@.to_set() == schema_findings(self@),
    {
        let ghost g = self@;
        let mut out: Vec<ConsistencyViolation> = Vec::new();
        proof {
            assert(violation_views(out@) =~= Seq::<ViolationView>::empty());
            assert(violation_views(out@).to_set() =~= Set::<ViolationView>::empty());
        }
        if !same_text(self.schema_version.as_str(), "sigint-ontology-v1") {
            insert_violation(
                &mut out,
                raw_violation("schema-version", "unexpected ontology schema version"),
            );
        }
        proof {
            assert(violation_views(out@).to_set() =~= schema_version_findings(g));
        }
        if self.nodes.len() > MAX_NODES {
            insert_violation(&mut out, raw_violation("node-limit", "ontology node limit exceeded"));
            return ConsistencyReport { violations: out };
        }
        if self.relations.len() > MAX_RELATIONS {
            insert_violation(
                &mut out,
                raw_violation("relation-limit", "ontology relation limit exceeded"),
            );
            return ConsistencyReport { violations: out };
        }
        self.check_nodes(&mut out);
        let counts = self.check_relations(&mut out);
        self.check_cardinality(&mut out, &counts);
        proof {
            assert(violation_views(out@).to_set() =~= schema_findings(g));
        }
        ConsistencyReport { violations: out }
    }
}

pub open spec fn semantic_nodes(observation_id: Seq<char>, top_label: Seq<char>) -> Set<NodeView> {
    set![
        NodeView { id: "observation:primary"@, kind: ConceptKind::Observation, label: None },
        NodeView { id: "features:primary"@, kind: ConceptKind::FeatureSet, label: None },
        NodeView { id: "event:primary"@, kind: ConceptKind::SignalEvent, label: Some(observation_id) },
        NodeView { id: "class:primary"@, kind: ConceptKind::SignalClass, label: Some(top_label) },
        NodeView { id: "embedding:primary"@, kind: ConceptKind::Embedding, label: None },
    ]
}

pub open spec fn semantic_relations() -> Seq<RelationView> {
    seq![
        RelationView { source: "observation:primary"@, relation: RelationKind::Contains, target: "features:primary"@ },
        RelationView { source: "event:primary"@, relation: RelationKind::DerivedFrom, target: "observation:primary"@ },
        RelationView { source: "event:primary"@, relation: RelationKind::ClassifiedAs, target: "class:primary"@ },
        RelationView { source: "event:primary"@, relation: RelationKind::HasEmbedding, target: "embedding:primary"@ },
    ]
}

fn node_of(id: &str, kind: ConceptKind, label: Option<&str>) -> (r: Result<OntologyNode, SdkError>)
    ensures
        r is Ok <==> text_ok(id@, MAX_ID_BYTES as nat) && label_ok(
            match label { Some(l) => Some(l@), None => None },
            MAX_LABEL_BYTES as nat,
        ),
        r matches Ok(n) ==> n@ == (NodeView {
            id: id@,
            kind,
            label: match label { Some(l) => Some(l@), None => None },
        }),
        r matches Err(e) ==> (if !text_ok(id@, MAX_ID_BYTES as nat) {
            text_error("ontology node id"@, id@, MAX_ID_BYTES, e)
        } else {
            text_error("ontology node label"@, label->0@, MAX_LABEL_BYTES, e)
        }),
{
    let owned = match label {
        Some(l) => Some(String::from_str(l)),
        None => None,
    };
    OntologyNode::new(String::from_str(id), kind, owned)
}

fn relation_of_ids(source: &str, relation: RelationKind, target: &str) -> (r: Result<OntologyRelation, SdkError>)
    ensures
        r is Ok <==> text_ok(source@, MAX_ID_BYTES as nat) && text_ok(target@, MAX_ID_BYTES as nat),
        r matches Ok(x) ==> x@ == (RelationView { source: source@, relation, target: target@ }),
{
    OntologyRelation::new(String::from_str(source), relation, String::from_str(target))
}

proof fn lemma_ascii_id_ok(s: Seq<char>)
    requires
        vstd::utf8::is_ascii_chars(s),
        0 < s.len() <= MAX_ID_BYTES,
        !crate::text::is_white_space(s[0]),
    ensures
        text_ok(s, MAX_ID_BYTES as nat),
{
    vstd::utf8::is_ascii_chars_encode_utf8(s);
}

proof fn lemma_has_member_id(nodes: Seq<NodeView>, v: NodeView)
    requires
        nodes.to_set().contains(v),
    ensures
        has_id(nodes, v.id),
{
    let i = choose|i: int| 0 <= i < nodes.len() && nodes[i] == v;
    assert(nodes[i].id == v.id);
}

proof fn lemma_ids_absent(nodes: Seq<NodeView>, id: Seq<char>)
    requires
        forall|v: NodeView| nodes.to_set().contains(v) ==> v.id != id,
    ensures
        !has_id(nodes, id),
{
    assert forall|i: int| 0 <= i < nodes.len() implies #[trigger] nodes[i].id != id by {
        assert(nodes.to_set().contains(nodes[i]));
    }
}

/// The semantic graph of one classified observation: the observation, its
/// features, the signal event (labelled with the observation id), its class
/// (labelled with the top label) and its embedding, with the four relations
/// between them.
pub fn semantic_graph_for_prediction(observation_id: &str, top_label: &str) -> (r: Result<
    OntologyGraph,
    SdkError,
>)
    ensures
        r is Ok <==> text_ok(observation_id@, MAX_LABEL_BYTES as nat) && text_ok(
            top_label@,
            MAX_LABEL_BYTES as nat,
        ),
        r matches Ok(g) ==> g@.schema_version == "sigint-ontology-v1"@ && g@.nodes.to_set()
            == semantic_nodes(observation_id@, top_label@) && g@.relations == semantic_relations(),
        r matches Err(e) ==> (if !text_ok(observation_id@, MAX_LABEL_BYTES as nat) {
            text_error("ontology node label"@, observation_id@, MAX_LABEL_BYTES, e)
        } else {
            text_error("ontology node label"@, top_label@, MAX_LABEL_BYTES, e)
        }),
{
    proof {
        reveal_strlit("sigint-ontology-v1");
        reveal_strlit("observation:primary");
        reveal_strlit("features:primary");
        reveal_strlit("event:primary");
        reveal_strlit("class:primary");
        reveal_strlit("embedding:primary");
    }
    let mut graph = OntologyGraph {
        schema_version: String::from_str("sigint-ontology-v1"),
        nodes: Vec::new(),
        relations: Vec::new(),
    };
    proof {
        assert(node_views(graph.nodes@) =~= Seq::<NodeView>::empty());
        lemma_ascii_id_ok("observation:primary"@);
        lemma_ascii_id_ok("features:primary"@);
        lemma_ascii_id_ok("event:primary"@);
        lemma_ascii_id_ok("class:primary"@);
        lemma_ascii_id_ok("embedding:primary"@);
    }
    let observation = node_of("observation:primary", ConceptKind::Observation, None);
    let features = node_of("features:primary", ConceptKind::FeatureSet, None);
    let event = node_of("event:primary", ConceptKind::SignalEvent, Some(observation_id));
    let class = node_of("class:primary", ConceptKind::SignalClass, Some(top_label));
    let embedding = node_of("embedding:primary", ConceptKind::Embedding, None);
    let (observation, features, event, class, embedding) = (observation?, features?, event?, class?, embedding?);
    let ghost o = "observation:primary"@;
    let ghost f = "features:primary"@;
    let ghost ev = "event:primary"@;
    let ghost c = "class:primary"@;
    let ghost em = "embedding:primary"@;
    proof {
        assert(o[0] != f[0] && o[0] != ev[0] && o[0] != c[0] && o[0] != em[0]);
        assert(f[0] != ev[0] && f[0] != c[0] && f[0] != em[0]);
        assert(ev[0] != c[0] && ev[1] != em[1] && c[0] != em[0]);
        assert(o != f && o != ev && o != c && o != em && f != ev && f != c && f != em);
        assert(ev != c && ev != em && c != em);
    }
    graph.add_node(observation)?;
    proof {
        lemma_ids_absent(graph@.nodes, f);
    }
    graph.add_node(features)?;
    proof {
        lemma_ids_absent(graph@.nodes, ev);
    }
    graph.add_node(event)?;
    proof {
        lemma_ids_absent(graph@.nodes, c);
    }
    graph.add_node(class)?;
    proof {
        lemma_ids_absent(graph@.nodes, em);
    }
    graph.add_node(embedding)?;
    proof {
        let ns = graph@.nodes;
        assert(ns.to_set() =~= semantic_nodes(observation_id@, top_label@));
        lemma_has_member_id(ns, NodeView { id: o, kind: ConceptKind::Observation, label: None });
        lemma_has_member_id(ns, NodeView { id: f, kind: ConceptKind::FeatureSet, label: None });
        lemma_has_member_id(ns, NodeView { id: ev, kind: ConceptKind::SignalEvent, label: Some(observation_id@) });
        lemma_has_member_id(ns, NodeView { id: c, kind: ConceptKind::SignalClass, label: Some(top_label@) });
        lemma_has_member_id(ns, NodeView { id: em, kind: ConceptKind::Embedding, label: None });
    }
    graph.add_relation(relation_of_ids("observation:primary", RelationKind::Contains, "features:primary")?)?;
    graph.add_relation(relation_of_ids("event:primary", RelationKind::DerivedFrom, "observation:primary")?)?;
    graph.add_relation(relation_of_ids("event:primary", RelationKind::ClassifiedAs, "class:primary")?)?;
    graph.add_relation(relation_of_ids("event:primary", RelationKind::HasEmbedding, "embedding:primary")?)?;
    proof {
        assert(graph@.relations =~= semantic_relations());
    }
    Ok(graph)
}

proof fn lemma_semantic_member(g: GraphView, observation_id: Seq<char>, top_label: Seq<char>, i: int)
    requires
        g.nodes.to_set() == semantic_nodes(observation_id, top_label),
        0 <= i < g.nodes.len(),
    ensures
        semantic_nodes(observation_id, top_label).contains(g.nodes[i]),
{
    assert(g.nodes.to_set().contains(g.nodes[i]));
}

/// The semantic graph built for a prediction satisfies the reference schema:
/// its consistency check reports nothing.
pub proof fn lemma_semantic_graph_is_consistent(g: GraphView, observation_id: Seq<char>, top_label: Seq<char>)
    requires
        g.schema_version == "sigint-ontology-v1"@,
        ids_sorted(g.nodes),
        g.nodes.to_set() == semantic_nodes(observation_id, top_label),
        g.relations == semantic_relations(),
        text_ok(observation_id, MAX_LABEL_BYTES as nat),
        text_ok(top_label, MAX_LABEL_BYTES as nat),
    ensures
        schema_findings(g) == Set::<ViolationView>::empty(),
{
    reveal_strlit("observation:primary");
    reveal_strlit("features:primary");
    reveal_strlit("event:primary");
    reveal_strlit("class:primary");
    reveal_strlit("embedding:primary");
    let o = "observation:primary"@;
    let f = "features:primary"@;
    let ev = "event:primary"@;
    let c = "class:primary"@;
    let em = "embedding:primary"@;
    assert(o[0] != f[0] && o[0] != ev[0] && o[0] != c[0] && o[0] != em[0]);
    assert(f[0] != ev[0] && f[0] != c[0] && f[0] != em[0]);
    assert(ev[0] != c[0] && ev[1] != em[1] && c[0] != em[0]);
    lemma_ascii_id_ok(o);
    lemma_ascii_id_ok(f);
    lemma_ascii_id_ok(ev);
    lemma_ascii_id_ok(c);
    lemma_ascii_id_ok(em);
    let sn = semantic_nodes(observation_id, top_label);
    let n_o = NodeView { id: o, kind: ConceptKind::Observation, label: None };
    let n_f = NodeView { id: f, kind: ConceptKind::FeatureSet, label: None };
    let n_ev = NodeView { id: ev, kind: ConceptKind::SignalEvent, label: Some(observation_id) };
    let n_c = NodeView { id: c, kind: ConceptKind::SignalClass, label: Some(top_label) };
    let n_em = NodeView { id: em, kind: ConceptKind::Embedding, label: None };
    assert(g.nodes.len() <= MAX_NODES) by {
        assert(g.nodes.no_duplicates()) by {
            assert forall|a: int, b: int| 0 <= a < g.nodes.len() && 0 <= b < g.nodes.len() && a != b implies g.nodes[a] != g.nodes[b] by {
                if a < b {
                    lemma_id_lt_facts(g.nodes[a].id, g.nodes[b].id, g.nodes[b].id);
                } else {
                    lemma_id_lt_facts(g.nodes[b].id, g.nodes[a].id, g.nodes[a].id);
                }
            }
        }
        g.nodes.unique_seq_to_set();
        assert(sn.len() <= 5);
    }
    // Each node of the graph is one of the five, so each id picks its node.
    assert forall|id: Seq<char>, v: NodeView| sn.contains(v) && v.id == id implies has_id(g.nodes, id)
        && node_with_id(g.nodes, id) == v by {
        lemma_has_member_id(g.nodes, v);
        let i = id_position(g.nodes, id);
        lemma_semantic_member(g, observation_id, top_label, i);
    }
    assert(sn.contains(n_o) && sn.contains(n_f) && sn.contains(n_ev) && sn.contains(n_c) && sn.contains(n_em));
    assert(node_findings(g, g.nodes.len() as int) =~= Set::<ViolationView>::empty()) by {
        assert forall|i: int| 0 <= i < g.nodes.len() implies text_ok(#[trigger] g.nodes[i].id, MAX_ID_BYTES as nat)
            && label_ok(g.nodes[i].label, MAX_LABEL_BYTES as nat) by {
            lemma_semantic_member(g, observation_id, top_label, i);
        }
    }
    let rels = g.relations;
    assert(relation_findings(g, rels.len() as int) =~= Set::<ViolationView>::empty()) by {
        assert forall|j: int| 0 <= j < rels.len() implies relation_finding(g, #[trigger] rels[j]) is None by {
        }
    }
    assert forall|j: int| 0 <= j < rels.len() implies !over_limit(g, #[trigger] rels[j]) by {
        reveal_with_fuel(count_among, 5);
        assert(rels.take(4) =~= rels);
        assert(rels.take(4).drop_last() =~= rels.take(3));
        assert(rels.take(3).drop_last() =~= rels.take(2));
        assert(rels.take(2).drop_last() =~= rels.take(1));
        assert(rels.take(1).drop_last() =~= rels.take(0));
    }
    assert(cardinality_findings(g) =~= Set::<ViolationView>::empty());
    assert(schema_version_findings(g) =~= Set::<ViolationView>::empty());
    assert(schema_findings(g) =~= Set::<ViolationView>::empty());
}

proof fn lemma_count_at_least_one(g: GraphView, rels: Seq<RelationView>, source: Seq<char>, relation: RelationKind, i: int)
    requires
        0 <= i < rels.len(),
        resolved(g, rels[i]),
        rels[i].source == source,
        rels[i].relation == relation,
    ensures
        count_among(g, rels, source, relation) >= 1,
    decreases rels.len(),
{
    if i < rels.len() - 1 {
        lemma_count_at_least_one(g, rels.drop_last(), source, relation, i);
    }
}

proof fn lemma_count_at_least_two(
    g: GraphView,
    rels: Seq<RelationView>,
    source: Seq<char>,
    relation: RelationKind,
    i: int,
    j: int,
)
    requires
        0 <= i < j < rels.len(),
        resolved(g, rels[i]),
        resolved(g, rels[j]),
        rels[i].source == source,
        rels[j].source == source,
        rels[i].relation == relation,
        rels[j].relation == relation,
    ensures
        count_among(g, rels, source, relation) >= 2,
    decreases rels.len(),
{
    if j < rels.len() - 1 {
        lemma_count_at_least_two(g, rels.drop_last(), source, relation, i, j);
    } else {
        lemma_count_at_least_one(g, rels.drop_last(), source, relation, i);
    }
}

/// A source may have at most one `DerivedFrom`, one `ClassifiedAs` and one
/// `HasEmbedding` relation: two relations of one of these kinds from the same
/// source, between nodes of a graph within the size limits, make the schema
/// check report a cardinality finding, so the graph is not valid.
pub proof fn lemma_single_valued_relations(g: GraphView, i: int, j: int)
    requires
        g.nodes.len() <= MAX_NODES,
        g.relations.len() <= MAX_RELATIONS,
        0 <= i < j < g.relations.len(),
        g.relations[i].source == g.relations[j].source,
        g.relations[i].relation == g.relations[j].relation,
        g.relations[i].relation == RelationKind::DerivedFrom || g.relations[i].relation
            == RelationKind::ClassifiedAs || g.relations[i].relation == RelationKind::HasEmbedding,
        resolved(g, g.relations[i]),
        resolved(g, g.relations[j]),
    ensures
        relation_count(g, g.relations.len() as int, g.relations[i].source, g.relations[i].relation) >= 2,
        schema_findings(g).contains(
            cardinality_finding(
                g.relations[i].source,
                relation_count(g, g.relations.len() as int, g.relations[i].source, g.relations[i].relation),
                g.relations[i].relation,
            ),
        ),
        schema_findings(g) != Set::<ViolationView>::empty(),
{
    let r = g.relations[i];
    assert(g.relations.take(g.relations.len() as int) =~= g.relations);
    lemma_count_at_least_two(g, g.relations, r.source, r.relation, i, j);
    let v = cardinality_finding(
        r.source,
        relation_count(g, g.relations.len() as int, r.source, r.relation),
        r.relation,
    );
    assert(over_limit(g, g.relations[i]));
    assert(cardinality_findings(g).contains(v));
    assert(schema_findings(g).contains(v));
}

/// Relations of the other kinds are never limited: however many a source
/// has, none of them is over a limit.
pub proof fn lemma_other_relations_unlimited(g: GraphView, r: RelationView)
    requires
        r.relation != RelationKind::DerivedFrom,
        r.relation != RelationKind::ClassifiedAs,
        r.relation != RelationKind::HasEmbedding,
    ensures
        !over_limit(g, r),
{
}

/// Each relation kind joins one pair of concepts only: an observation
/// contains a feature set; a signal event derives from an observation, is
/// classified as a signal class, has an embedding, belongs to a pattern and
/// is supported by evidence; a pattern is composed of signal events; and
/// evidence supports a signal event.
pub proof fn lemma_relation_schema(source: ConceptKind, relation: RelationKind, target: ConceptKind)
    ensures
        relation_allowed(source, relation, target) == match relation {
            RelationKind::Contains => source == ConceptKind::Observation && target == ConceptKind::FeatureSet,
            RelationKind::DerivedFrom => source == ConceptKind::SignalEvent && target == ConceptKind::Observation,
            RelationKind::ClassifiedAs => source == ConceptKind::SignalEvent && target == ConceptKind::SignalClass,
            RelationKind::HasEmbedding => source == ConceptKind::SignalEvent && target == ConceptKind::Embedding,
            RelationKind::BelongsTo => source == ConceptKind::SignalEvent && target == ConceptKind::Pattern,
            RelationKind::ComposedOf => source == ConceptKind::Pattern && target == ConceptKind::SignalEvent,
            RelationKind::SupportedBy => source == ConceptKind::SignalEvent && target == ConceptKind::Evidence,
            RelationKind::Supports => source == ConceptKind::Evidence && target == ConceptKind::SignalEvent,
        },
        relation_allowed(source, relation, target) ==> forall|s: ConceptKind, t: ConceptKind|
            #[trigger] relation_allowed(s, relation, t) ==> s == source && t == target,
{
}

} // verus!
