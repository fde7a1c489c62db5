//! The parsed report: sections, operators and the expressions that
//! their attributes hold, each with the mathematical value it stands for.

use vstd::prelude::*;
use crate::keys::{key_less, lemma_key_less_irreflexive};

verus! {

/// The sections that a report can hold.
#[derive(Debug, Clone, Copy, PartialEq, Eq, Structural)]
pub enum Section {
    AbstractSyntaxTree,
    OptimizedPhysicalPlan,
    OptimizedExecutionPlan,
}

impl View for Section {
    type V = Section;

    open spec fn view(&self) -> Section {
        *self
    }
}

/// The value of an attribute.
#[derive(Debug, PartialEq)]
#[allow(inconsistent_fields)]
pub enum Expression {
    /// A reference to a field, or with a leading `$` to a position.
    Binding { name: String },
    /// Two or more expressions selected together.
    Projection { fields: Vec<Box<Expression>> },
    /// A qualified name, segment by segment.
    FQName { name: Vec<String> },
    /// An operator symbol applied to two expressions.
    BiOp { op: String, left: Box<Expression>, right: Box<Expression> },
    /// A number with a type tag, such as `5000:INTERVAL SECOND`.
    TypedLiteral { value: i16, _type: String },
    /// A bare number.
    NumLiteral(i16),
    /// `hash[column]`.
    HashDistribution(String),
    /// `CAST(input AS cast_type)`.
    CastExpression { input: String, cast_type: String },
    /// Text that was captured without being understood.
    Unknown(String),
}

/// What an [`Expression`] stands for.
#[allow(inconsistent_fields)]
pub enum ExpressionView {
    Binding { name: Seq<char> },
    Projection { fields: Seq<ExpressionView> },
    FQName { name: Seq<Seq<char>> },
    BiOp { op: Seq<char>, left: Box<ExpressionView>, right: Box<ExpressionView> },
    TypedLiteral { value: i16, _type: Seq<char> },
    NumLiteral(i16),
    HashDistribution(Seq<char>),
    CastExpression { input: Seq<char>, cast_type: Seq<char> },
    Unknown(Seq<char>),
}

impl Expression {
    /// The value of the expression, sub-expressions included.
    pub open spec fn model(&self) -> ExpressionView
        decreases self,
    {
        match self {
            Expression::Binding { name } => ExpressionView::Binding { name: name@ },
            Expression::Projection { fields } => ExpressionView::Projection {
                fields: Seq::new(
                    fields@.len(),
                    |i: int|
                        if 0 <= i < fields@.len() {
                            fields@[i].model()
                        } else {
                            ExpressionView::NumLiteral(0)
                        },
                ),
            },
            Expression::FQName { name } => ExpressionView::FQName { name: texts_of(name@) },
            Expression::BiOp { op, left, right } => ExpressionView::BiOp {
                op: op@,
                left: Box::new(left.model()),
                right: Box::new(right.model()),
            },
            Expression::TypedLiteral { value, _type } => ExpressionView::TypedLiteral {
                value: *value,
                _type: _type@,
            },
            Expression::NumLiteral(value) => ExpressionView::NumLiteral(*value),
            Expression::HashDistribution(column) => ExpressionView::HashDistribution(column@),
            Expression::CastExpression { input, cast_type } => ExpressionView::CastExpression {
                input: input@,
                cast_type: cast_type@,
            },
            Expression::Unknown(raw) => ExpressionView::Unknown(raw@),
        }
    }
}

impl View for Expression {
    type V = ExpressionView;

    open spec fn view(&self) -> ExpressionView {
        self.model()
    }
}

/// The texts of a sequence of strings.
pub open spec fn texts_of(strings: Seq<String>) -> Seq<Seq<char>> {
    Seq::new(strings.len(), |i: int| strings[i]@)
}

/// The values of a sequence of expressions.
pub open spec fn expressions_of(items: Seq<Box<Expression>>) -> Seq<ExpressionView> {
    Seq::new(items.len(), |i: int| items[i]@)
}

/// The value of a projection is the values of its fields, in order.
pub proof fn lemma_projection_model(fields: Vec<Box<Expression>>)
    ensures
        (Expression::Projection { fields }).model() == (ExpressionView::Projection {
            fields: expressions_of(fields@),
        }),
{
    assert((Expression::Projection { fields }).model()->Projection_fields =~= expressions_of(
        fields@,
    ));
}

/// One node of a plan: its name, its attributes and the operators below
/// it.  The attributes are kept in ascending order of their names, so
/// that two operators with the same attributes are the same value.
#[derive(Debug, PartialEq)]
pub struct Operator {
    pub name: String,
    pub attributes: Vec<(String, Expression)>,
    pub children: Vec<Box<Operator>>,
}

/// What an [`Operator`] stands for.  The attributes are a mapping: it has
/// no order.
pub struct OperatorView {
    pub name: Seq<char>,
    pub attributes: Map<Seq<char>, ExpressionView>,
    pub children: Seq<OperatorView>,
}

/// The mapping that a list of attributes stands for.
pub open spec fn attribute_map(entries: Seq<(String, Expression)>) -> Map<
    Seq<char>,
    ExpressionView,
> {
    Map::new(
        |key: Seq<char>| exists|i: int| 0 <= i < entries.len() && #[trigger] entries[i].0@ == key,
        |key: Seq<char>|
            entries[choose|i: int| 0 <= i < entries.len() && #[trigger] entries[i].0@ == key].1@,
    )
}

/// Whether the names of a list of attributes ascend strictly.
pub open spec fn ascending(entries: Seq<(String, Expression)>) -> bool {
    forall|i: int, j: int|
        0 <= i < j < entries.len() ==> key_less(#[trigger] entries[i].0@, #[trigger] entries[j].0@)
}

/// In a list whose names ascend, every entry is found in the mapping
/// under its name, and the mapping holds nothing else.
pub proof fn lemma_attribute_map(entries: Seq<(String, Expression)>)
    requires
        ascending(entries),
    ensures
        forall|i: int|
            0 <= i < entries.len() ==> attribute_map(entries).contains_key(
                #[trigger] entries[i].0@,
            ) && attribute_map(entries)[entries[i].0@] == entries[i].1@,
        forall|key: Seq<char>| #[trigger]
            attribute_map(entries).contains_key(key) ==> exists|i: int|
                0 <= i < entries.len() && #[trigger] entries[i].0@ == key,
{
    assert forall|i: int| 0 <= i < entries.len() implies attribute_map(entries).contains_key(
        #[trigger] entries[i].0@,
    ) && attribute_map(entries)[entries[i].0@] == entries[i].1@ by {
        let key = entries[i].0@;
        let j = choose|j: int| 0 <= j < entries.len() && #[trigger] entries[j].0@ == key;
        lemma_key_less_irreflexive(key);
        if j < i {
            assert(key_less(entries[j].0@, entries[i].0@));
        } else if i < j {
            assert(key_less(entries[i].0@, entries[j].0@));
        }
    }
}

impl Operator {
    /// The value of the operator, its subtree included.
    pub open spec fn model(&self) -> OperatorView
        decreases self,
    {
        OperatorView {
            name: self.name@,
            attributes: attribute_map(self.attributes@),
            children: Seq::new(
                self.children@.len(),
                |i: int|
                    if 0 <= i < self.children@.len() {
                        self.children@[i].model()
                    } else {
                        OperatorView { name: Seq::empty(), attributes: Map::empty(), children: Seq::empty() }
                    },
            ),
        }
    }

    /// Whether the attributes of this operator and of every operator
    /// below it are in ascending order of their names.
    pub open spec fn wf(&self) -> bool
        decreases self,
    {
        &&& ascending(self.attributes@)
        &&& forall|i: int| 0 <= i < self.children@.len() ==> (#[trigger] self.children@[i]).wf()
    }
}

/// The value of an operator is its name, the mapping of its attributes
/// and the values of its children, in order.
pub proof fn lemma_operator_model(operator: Operator)
    ensures
        operator.model() == (OperatorView {
            name: operator.name@,
            attributes: attribute_map(operator.attributes@),
            children: operators_of(operator.children@),
        }),
{
    assert(operator.model().children =~= operators_of(operator.children@));
}

impl Operator {
    /// The value of the attribute `name`, if the operator has it.
    pub fn attribute(&self, name: &str) -> (value: Option<&Expression>)
        requires
            self.wf(),
        ensures
            match value {
                Some(found) => self@.attributes.contains_key(name@) && found@
                    == self@.attributes[name@],
                None => !self@.attributes.contains_key(name@),
            },
    {
        proof {
            lemma_attribute_map(self.attributes@);
            lemma_operator_model(*self);
        }
        let key = name.to_owned();
        let mut i: usize = 0;
        while i < self.attributes.len()
            invariant
                i <= self.attributes@.len(),
                key@ == name@,
                forall|k: int| 0 <= k < i ==> (#[trigger] self.attributes@[k]).0@ != name@,
                forall|k: int|
                    0 <= k < self.attributes@.len() ==> attribute_map(
                        self.attributes@,
                    ).contains_key((#[trigger] self.attributes@[k]).0@) && attribute_map(
                        self.attributes@,
                    )[self.attributes@[k].0@] == self.attributes@[k].1@,
                self@.attributes == attribute_map(self.attributes@),
            decreases self.attributes@.len() - i,
        {
            if self.attributes[i].0 == key {
                return Some(&self.attributes[i].1);
            }
            i += 1;
        }
        None
    }
}

impl View for Operator {
    type V = OperatorView;

    open spec fn view(&self) -> OperatorView {
        self.model()
    }
}

/// The values of a sequence of operators.
pub open spec fn operators_of(items: Seq<Box<Operator>>) -> Seq<OperatorView> {
    Seq::new(items.len(), |i: int| items[i]@)
}

/// The values of a sequence of root operators.
pub open spec fn roots_of(items: Seq<Operator>) -> Seq<OperatorView> {
    Seq::new(items.len(), |i: int| items[i]@)
}

/// One section of a report: its kind and the forest of operators under
/// it.
#[derive(Debug, PartialEq)]
pub struct QueryPlan {
    pub section: Section,
    pub operators: Vec<Operator>,
}

/// What a [`QueryPlan`] stands for.
pub struct QueryPlanView {
    pub section: Section,
    pub operators: Seq<OperatorView>,
}

impl View for QueryPlan {
    type V = QueryPlanView;

    open spec fn view(&self) -> QueryPlanView {
        QueryPlanView { section: self.section, operators: roots_of(self.operators@) }
    }
}

impl QueryPlan {
    /// Whether every operator of the plan is well formed.
    pub open spec fn wf(&self) -> bool {
        forall|i: int| 0 <= i < self.operators@.len() ==> (#[trigger] self.operators@[i]).wf()
    }
}

/// A parsed report: its sections in the order of the text.
#[derive(Debug, PartialEq)]
pub struct QueryPlans {
    pub plans: Vec<QueryPlan>,
}

/// The values of a sequence of plans.
pub open spec fn plans_of(items: Seq<QueryPlan>) -> Seq<QueryPlanView> {
    Seq::new(items.len(), |i: int| items[i]@)
}

impl View for QueryPlans {
    type V = Seq<QueryPlanView>;

    open spec fn view(&self) -> Seq<QueryPlanView> {
        plans_of(self.plans@)
    }
}

impl QueryPlans {
    /// Whether the report has a section and every plan is well formed.
    pub open spec fn wf(&self) -> bool {
        &&& self.plans@.len() > 0
        &&& forall|i: int| 0 <= i < self.plans@.len() ==> (#[trigger] self.plans@[i]).wf()
    }
}

} // verus!
