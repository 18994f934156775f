//! A filter over metadata built as a tree: comparisons of one metadata
//! field with a value, joined by `and` and `or`.

use vstd::prelude::*;
use crate::strmap::{key_position, lemma_first_key, lemma_no_key, StringMap};
use crate::text::{str_eq, str_lt, text_lt};

verus! {

/// How a comparison holds a metadata value against the value it was given.
#[derive(Debug, Clone, Copy, PartialEq, Eq, Structural)]
pub enum EqualityCompOp {
    Eq,
    Ne,
    Gt,
    Gte,
    Lt,
    Lte,
}

/// Whether `lhs` stands in the relation of the operator to `rhs`. Strings
/// are ordered as their UTF-8 bytes are, one after the other.
pub open spec fn comp_holds(op: EqualityCompOp, lhs: Seq<char>, rhs: Seq<char>) -> bool {
    match op {
        EqualityCompOp::Eq => lhs == rhs,
        EqualityCompOp::Ne => lhs != rhs,
        EqualityCompOp::Gt => text_lt(rhs, lhs),
        EqualityCompOp::Gte => !text_lt(lhs, rhs),
        EqualityCompOp::Lt => text_lt(lhs, rhs),
        EqualityCompOp::Lte => !text_lt(rhs, lhs),
    }
}

pub fn eq(lhs: &str, rhs: &str) -> (r: bool)
    ensures
        r == comp_holds(EqualityCompOp::Eq, lhs@, rhs@),
{
    str_eq(lhs, rhs)
}

pub fn ne(lhs: &str, rhs: &str) -> (r: bool)
    ensures
        r == comp_holds(EqualityCompOp::Ne, lhs@, rhs@),
{
    !str_eq(lhs, rhs)
}

pub fn gt(lhs: &str, rhs: &str) -> (r: bool)
    ensures
        r == comp_holds(EqualityCompOp::Gt, lhs@, rhs@),
{
    str_lt(rhs, lhs)
}

pub fn gte(lhs: &str, rhs: &str) -> (r: bool)
    ensures
        r == comp_holds(EqualityCompOp::Gte, lhs@, rhs@),
{
    !str_lt(lhs, rhs)
}

pub fn lt(lhs: &str, rhs: &str) -> (r: bool)
    ensures
        r == comp_holds(EqualityCompOp::Lt, lhs@, rhs@),
{
    str_lt(lhs, rhs)
}

pub fn lte(lhs: &str, rhs: &str) -> (r: bool)
    ensures
        r == comp_holds(EqualityCompOp::Lte, lhs@, rhs@),
{
    !str_lt(rhs, lhs)
}

/// The function that decides the relation of an operator.
pub fn get_equality_comp_op_fn(op: EqualityCompOp) -> (f: impl Fn(&str, &str) -> bool)
    ensures
        forall|lhs: &str, rhs: &str| #[trigger] f.requires((lhs, rhs)),
        forall|lhs: &str, rhs: &str, r: bool|
            f.ensures((lhs, rhs), r) ==> r == comp_holds(op, lhs@, rhs@),
{
    move |lhs: &str, rhs: &str| -> (r: bool)
        ensures
            r == comp_holds(op, lhs@, rhs@),
        {
            match op {
                EqualityCompOp::Eq => eq(lhs, rhs),
                EqualityCompOp::Ne => ne(lhs, rhs),
                EqualityCompOp::Gt => gt(lhs, rhs),
                EqualityCompOp::Gte => gte(lhs, rhs),
                EqualityCompOp::Lt => lt(lhs, rhs),
                EqualityCompOp::Lte => lte(lhs, rhs),
            }
        }
}

/// A comparison of one metadata field with a value.
#[derive(Debug, PartialEq, Eq)]
pub struct Comparator {
    pub metadata_field: String,
    pub op: EqualityCompOp,
    pub comp_value: String,
}

/// How two filters are joined.
#[derive(Debug, Clone, Copy, PartialEq, Eq, Structural)]
pub enum LogicalCompOp {
    And,
    Or,
}

/// What joining two outcomes gives.
pub open spec fn logic_holds(op: LogicalCompOp, lhs: bool, rhs: bool) -> bool {
    match op {
        LogicalCompOp::And => lhs && rhs,
        LogicalCompOp::Or => lhs || rhs,
    }
}

pub fn and(lhs: bool, rhs: bool) -> (r: bool)
    ensures
        r == logic_holds(LogicalCompOp::And, lhs, rhs),
{
    lhs && rhs
}

pub fn or(lhs: bool, rhs: bool) -> (r: bool)
    ensures
        r == logic_holds(LogicalCompOp::Or, lhs, rhs),
{
    lhs || rhs
}

/// The function that joins two outcomes as the operator says.
pub fn get_logical_comp_op_fn(op: LogicalCompOp) -> (f: impl Fn(bool, bool) -> bool)
    ensures
        forall|lhs: bool, rhs: bool| #[trigger] f.requires((lhs, rhs)),
        forall|lhs: bool, rhs: bool, r: bool|
            f.ensures((lhs, rhs), r) ==> r == logic_holds(op, lhs, rhs),
{
    move |lhs: bool, rhs: bool| -> (r: bool)
        ensures
            r == logic_holds(op, lhs, rhs),
        {
            match op {
                LogicalCompOp::And => and(lhs, rhs),
                LogicalCompOp::Or => or(lhs, rhs),
            }
        }
}

/// Two filters joined by an operator.
#[derive(Debug, PartialEq, Eq)]
pub struct Logic {
    pub lhs: Box<Filter>,
    pub op: LogicalCompOp,
    pub rhs: Box<Filter>,
}

/// A filter: one comparison, or two filters joined.
#[derive(Debug, PartialEq, Eq)]
pub enum Filter {
    Comparator(Comparator),
    Logic(Logic),
}

/// What a filter holds.
pub enum FilterView {
    Comparator { metadata_field: Seq<char>, op: EqualityCompOp, comp_value: Seq<char> },
    Logic { lhs: Box<FilterView>, join: LogicalCompOp, rhs: Box<FilterView> },
}

impl View for Comparator {
    type V = FilterView;

    open spec fn view(&self) -> FilterView {
        FilterView::Comparator {
            metadata_field: self.metadata_field@,
            op: self.op,
            comp_value: self.comp_value@,
        }
    }
}

/// What a filter holds.
pub open spec fn filter_view(filter: Filter) -> FilterView
    decreases filter,
{
    match filter {
        Filter::Comparator(c) => c@,
        Filter::Logic(l) => FilterView::Logic {
            lhs: Box::new(filter_view(*l.lhs)),
            join: l.op,
            rhs: Box::new(filter_view(*l.rhs)),
        },
    }
}

impl View for Filter {
    type V = FilterView;

    open spec fn view(&self) -> FilterView {
        filter_view(*self)
    }
}

impl View for Logic {
    type V = FilterView;

    open spec fn view(&self) -> FilterView {
        FilterView::Logic { lhs: Box::new(self.lhs@), join: self.op, rhs: Box::new(self.rhs@) }
    }
}

/// The value that a comparison reads for a field: the value that the
/// metadata has for it, or the empty string where it has none.
pub open spec fn field_value(metadata: Map<Seq<char>, Seq<char>>, field: Seq<char>) -> Seq<char> {
    if metadata.contains_key(field) {
        metadata[field]
    } else {
        Seq::empty()
    }
}

/// Whether metadata passes a filter.
pub open spec fn filter_holds(filter: FilterView, metadata: Map<Seq<char>, Seq<char>>) -> bool
    decreases filter,
{
    match filter {
        FilterView::Comparator { metadata_field, op, comp_value } => comp_holds(
            op,
            field_value(metadata, metadata_field),
            comp_value,
        ),
        FilterView::Logic { lhs, join, rhs } => logic_holds(
            join,
            filter_holds(*lhs, metadata),
            filter_holds(*rhs, metadata),
        ),
    }
}

impl Comparator {
    /// Whether the metadata passes the comparison.
    pub fn compare(&self, metadata: &StringMap) -> (r: bool)
        ensures
            r == filter_holds(self@, metadata@),
    {
        let decide = get_equality_comp_op_fn(self.op);
        match metadata.get(self.metadata_field.as_str()) {
            Some(held) => decide(held.as_str(), self.comp_value.as_str()),
            None => {
                proof {
                    reveal_strlit("");
                    assert(""@ =~= Seq::<char>::empty());
                }
                decide("", self.comp_value.as_str())
            },
        }
    }
}

impl Logic {
    /// Whether the metadata passes the two filters as joined.
    pub fn compare(&self, metadata: &StringMap) -> (r: bool)
        ensures
            r == filter_holds(self@, metadata@),
        decreases self,
    {
        let lhs = self.lhs.compare(metadata);
        let rhs = self.rhs.compare(metadata);
        let join = get_logical_comp_op_fn(self.op);
        join(lhs, rhs)
    }
}

impl Filter {
    /// Whether the metadata passes the filter.
    pub fn compare(&self, metadata: &StringMap) -> (r: bool)
        ensures
            r == filter_holds(self@, metadata@),
        decreases self,
    {
        match self {
            Filter::Comparator(c) => c.compare(metadata),
            Filter::Logic(l) => l.compare(metadata),
        }
    }
}

/// What can go wrong when a filter is read.
#[derive(Debug, Clone, Copy, PartialEq, Eq, Structural)]
pub enum Error {
    /// The source has not the form of a filter.
    InvalidFilter,
}

/// The source of a filter: a text, or an object of named members.
#[derive(Debug)]
pub enum Expr {
    Text(String),
    Object(Vec<(String, Expr)>),
}

/// What a source holds.
pub enum ExprView {
    Text(Seq<char>),
    Object(Seq<(Seq<char>, ExprView)>),
}

/// What a source holds.
pub open spec fn expr_view(expr: Expr) -> ExprView
    decreases expr,
{
    match expr {
        Expr::Text(text) => ExprView::Text(text@),
        Expr::Object(members) => ExprView::Object(
            Seq::new(
                members@.len(),
                |i: int|
                    if 0 <= i < members@.len() {
                        (members@[i].0@, expr_view(members@[i].1))
                    } else {
                        arbitrary()
                    },
            ),
        ),
    }
}

impl View for Expr {
    type V = ExprView;

    open spec fn view(&self) -> ExprView {
        expr_view(*self)
    }
}

/// The filter that a source stands for, if it stands for one: an object
/// with one member, whose name is `$and` or `$or` for two filters joined,
/// or the name of a comparison.
pub open spec fn parse_spec(source: ExprView) -> Option<FilterView>
    decreases source, 2nat,
{
    match source {
        ExprView::Text(_) => None,
        ExprView::Object(members) => if members.len() != 1 {
            None
        } else {
            let name = members[0].0;
            let inner = members[0].1;
            if name == "$and"@ {
                parse_logic_spec(inner, LogicalCompOp::And)
            } else if name == "$or"@ {
                parse_logic_spec(inner, LogicalCompOp::Or)
            } else if name == "$eq"@ {
                parse_comparator_spec(inner, EqualityCompOp::Eq)
            } else if name == "$ne"@ {
                parse_comparator_spec(inner, EqualityCompOp::Ne)
            } else if name == "$gt"@ {
                parse_comparator_spec(inner, EqualityCompOp::Gt)
            } else if name == "$gte"@ {
                parse_comparator_spec(inner, EqualityCompOp::Gte)
            } else if name == "$lt"@ {
                parse_comparator_spec(inner, EqualityCompOp::Lt)
            } else if name == "$lte"@ {
                parse_comparator_spec(inner, EqualityCompOp::Lte)
            } else {
                None
            }
        },
    }
}

/// The two filters joined that a source stands for: an object whose
/// members `lhs` and `rhs` stand for filters.
pub open spec fn parse_logic_spec(source: ExprView, op: LogicalCompOp) -> Option<FilterView>
    decreases source, 1nat,
{
    match (parse_side_spec(source, "lhs"@), parse_side_spec(source, "rhs"@)) {
        (Some(lhs), Some(rhs)) => Some(
            FilterView::Logic { lhs: Box::new(lhs), join: op, rhs: Box::new(rhs) },
        ),
        _ => None,
    }
}

/// The filter that the first member of that name stands for.
pub open spec fn parse_side_spec(source: ExprView, name: Seq<char>) -> Option<FilterView>
    decreases source, 0nat,
{
    match source {
        ExprView::Text(_) => None,
        ExprView::Object(members) => {
            let i = key_position(members, name);
            if 0 <= i < members.len() {
                parse_spec(members[i].1)
            } else {
                None
            }
        },
    }
}

/// The comparison that a source stands for: an object with one member,
/// whose name is the metadata field and which is the text to compare with.
pub open spec fn parse_comparator_spec(source: ExprView, op: EqualityCompOp) -> Option<FilterView> {
    match source {
        ExprView::Text(_) => None,
        ExprView::Object(members) => if members.len() != 1 {
            None
        } else {
            match members[0].1 {
                ExprView::Text(text) => Some(
                    FilterView::Comparator { metadata_field: members[0].0, op, comp_value: text },
                ),
                ExprView::Object(_) => None,
            }
        },
    }
}

/// The views of the members of an object.
pub open spec fn member_views(members: Seq<(String, Expr)>) -> Seq<(Seq<char>, ExprView)> {
    Seq::new(
        members.len(),
        |i: int|
            if 0 <= i < members.len() {
                (members[i].0@, expr_view(members[i].1))
            } else {
                arbitrary()
            },
    )
}

/// Reads the filter that the first member of that name stands for.
pub fn parse_logic_helper(input: &Expr, key: &str) -> (r: Result<Filter, Error>)
    ensures
        match r {
            Ok(filter) => parse_side_spec(input@, key@) == Some(filter@),
            Err(_) => parse_side_spec(input@, key@) is None,
        },
    decreases input, 0nat,
{
    match input {
        Expr::Text(_) => Err(Error::InvalidFilter),
        Expr::Object(members) => {
            let ghost views = member_views(members@);
            proof {
                lemma_object_view(*input);
            }
            let mut i: usize = 0;
            while i < members.len() && !str_eq(members[i].0.as_str(), key)
                invariant
                    i <= members@.len(),
                    views == member_views(members@),
                    forall|j: int| 0 <= j < i ==> (#[trigger] views[j]).0 != key@,
                decreases members@.len() - i,
            {
                i += 1;
            }
            if i < members.len() {
                proof {
                    lemma_first_key(views, key@, i as int);
                }
                parse(&members[i].1)
            } else {
                proof {
                    lemma_no_key(views, key@);
                }
                Err(Error::InvalidFilter)
            }
        },
    }
}

/// Reads two filters joined: the members `lhs` and `rhs` of the input.
pub fn parse_logic(input: &Expr, op: LogicalCompOp) -> (r: Result<Filter, Error>)
    ensures
        match r {
            Ok(filter) => parse_logic_spec(input@, op) == Some(filter@),
            Err(_) => parse_logic_spec(input@, op) is None,
        },
    decreases input, 1nat,
{
    let lhs = match parse_logic_helper(input, "lhs") {
        Ok(filter) => filter,
        Err(e) => {
            return Err(e);
        },
    };
    let rhs = match parse_logic_helper(input, "rhs") {
        Ok(filter) => filter,
        Err(e) => {
            return Err(e);
        },
    };
    Ok(Filter::Logic(Logic { lhs: Box::new(lhs), op, rhs: Box::new(rhs) }))
}

/// Reads a comparison: the one member of the input, a field and a text.
pub fn parse_comparator(input: &Expr, op: EqualityCompOp) -> (r: Result<Filter, Error>)
    ensures
        match r {
            Ok(filter) => parse_comparator_spec(input@, op) == Some(filter@),
            Err(_) => parse_comparator_spec(input@, op) is None,
        },
{
    match input {
        Expr::Text(_) => Err(Error::InvalidFilter),
        Expr::Object(members) => {
            proof {
                lemma_object_view(*input);
            }
            if members.len() != 1 {
                return Err(Error::InvalidFilter);
            }
            match &members[0].1 {
                Expr::Text(text) => Ok(
                    Filter::Comparator(
                        Comparator {
                            metadata_field: members[0].0.clone(),
                            op,
                            comp_value: text.clone(),
                        },
                    ),
                ),
                Expr::Object(_) => Err(Error::InvalidFilter),
            }
        },
    }
}

/// Reads a filter from its source.
pub fn parse(input: &Expr) -> (r: Result<Filter, Error>)
    ensures
        match r {
            Ok(filter) => parse_spec(input@) == Some(filter@),
            Err(e) => parse_spec(input@) is None && e == Error::InvalidFilter,
        },
    decreases input, 2nat,
{
    match input {
        Expr::Text(_) => Err(Error::InvalidFilter),
        Expr::Object(members) => {
            proof {
                lemma_object_view(*input);
            }
            if members.len() != 1 {
                return Err(Error::InvalidFilter);
            }
            let name = members[0].0.as_str();
            let inner = &members[0].1;
            if str_eq(name, "$and") {
                parse_logic(inner, LogicalCompOp::And)
            } else if str_eq(name, "$or") {
                parse_logic(inner, LogicalCompOp::Or)
            } else if str_eq(name, "$eq") {
                parse_comparator(inner, EqualityCompOp::Eq)
            } else if str_eq(name, "$ne") {
                parse_comparator(inner, EqualityCompOp::Ne)
            } else if str_eq(name, "$gt") {
                parse_comparator(inner, EqualityCompOp::Gt)
            } else if str_eq(name, "$gte") {
                parse_comparator(inner, EqualityCompOp::Gte)
            } else if str_eq(name, "$lt") {
                parse_comparator(inner, EqualityCompOp::Lt)
            } else if str_eq(name, "$lte") {
                parse_comparator(inner, EqualityCompOp::Lte)
            } else {
                Err(Error::InvalidFilter)
            }
        },
    }
}

/// The view of an object holds the views of its members.
proof fn lemma_object_view(expr: Expr)
    ensures
        match expr {
            Expr::Text(text) => expr@ == ExprView::Text(text@),
            Expr::Object(members) => expr@ == ExprView::Object(member_views(members@)),
        },
{
    match expr {
        Expr::Text(_) => {},
        Expr::Object(members) => {
            assert(expr@ matches ExprView::Object(views) && views =~= member_views(members@));
        },
    }
}

} // verus!
