//! The intermediate representation that control-flow graphs are made of:
//! expressions and statements over variables that may carry a version.
use crate::errors::{FileID, FileLocation};
use vstd::prelude::*;

verus! {

/// The version of a variable.
pub type Version = usize;

/// The identity of a variable: all versions of one variable share it.
pub type VariableId = usize;

/// Where a node of the representation comes from.
#[derive(Clone, Copy, Debug, PartialEq, Eq, Structural)]
pub struct Meta {
    pub file_id: Option<FileID>,
    pub file_location: FileLocation,
}

impl Meta {
    /// The meta data of a node at `file_location` in the file `file_id`.
    pub fn new(file_id: Option<FileID>, file_location: FileLocation) -> (meta: Meta)
        ensures
            meta == (Meta { file_id, file_location }),
    {
        Meta { file_id, file_location }
    }

    /// The file that the node comes from, if it comes from one.
    pub fn file_id(&self) -> (file_id: Option<FileID>)
        ensures
            file_id == self.file_id,
    {
        self.file_id
    }

    /// The place of the node in its file.
    pub fn file_location(&self) -> (file_location: FileLocation)
        ensures
            file_location == self.file_location,
    {
        self.file_location
    }
}

/// A variable, with the version that names one of its assignments, once the
/// variable is in static single assignment form.
#[derive(Clone, Copy, Debug, PartialEq, Eq, Structural)]
pub struct VariableName {
    pub id: VariableId,
    pub version: Option<Version>,
}

impl VariableName {
    /// The variable `id` without a version.
    pub fn new(id: VariableId) -> (name: VariableName)
        ensures
            name == (VariableName { id, version: None }),
    {
        VariableName { id, version: None }
    }

    /// This variable in the version `version`.
    pub fn with_version(&self, version: Version) -> (name: VariableName)
        ensures
            name == (VariableName { id: self.id, version: Some(version) }),
    {
        VariableName { id: self.id, version: Some(version) }
    }
}

/// The operators between two operands.
#[derive(Clone, Copy, Debug, PartialEq, Eq, Structural)]
pub enum ExpressionInfixOpcode {
    Mul,
    Div,
    Add,
    Sub,
    Pow,
    IntDiv,
    Mod,
    ShiftL,
    ShiftR,
    LesserEq,
    GreaterEq,
    Lesser,
    Greater,
    Eq,
    NotEq,
    BoolOr,
    BoolAnd,
    BitOr,
    BitAnd,
    BitXor,
}

/// The operators before one operand.
#[derive(Clone, Copy, Debug, PartialEq, Eq, Structural)]
pub enum ExpressionPrefixOpcode {
    Sub,
    BoolNot,
    Complement,
}

/// One step of an access into a variable.
#[derive(Debug, PartialEq, Eq)]
pub enum AccessType {
    ArrayAccess(Box<Expression>),
    ComponentAccess(VariableId),
}

/// The value that reaches a phi statement from one predecessor of its block.
#[derive(Clone, Copy, Debug, PartialEq, Eq, Structural)]
pub struct PhiArgument {
    pub predecessor: usize,
    pub version: Version,
}

/// An expression.
#[derive(Debug, PartialEq, Eq)]
#[allow(inconsistent_fields)]
pub enum Expression {
    /// An infix operation.
    InfixOp { meta: Meta, lhe: Box<Expression>, infix_op: ExpressionInfixOpcode, rhe: Box<Expression> },
    /// A prefix operation.
    PrefixOp { meta: Meta, prefix_op: ExpressionPrefixOpcode, rhe: Box<Expression> },
    /// An inline switch, of the form `cond ? if_true : if_false`.
    SwitchOp { meta: Meta, cond: Box<Expression>, if_true: Box<Expression>, if_false: Box<Expression> },
    /// A variable.
    Variable { meta: Meta, name: VariableName },
    /// A constant.
    Number(Meta, u64),
    /// A call of the function `name`.
    Call { meta: Meta, name: VariableId, args: Vec<Expression> },
    /// An array given by its elements.
    InlineArray { meta: Meta, values: Vec<Expression> },
    /// An access into the variable `var`.
    Access { meta: Meta, var: VariableName, access: Vec<AccessType> },
    /// The variable `var` with the place at `access` set to `rhe`.
    Update { meta: Meta, var: VariableName, access: Vec<AccessType>, rhe: Box<Expression> },
    /// The merge of the versions of a variable that reach the start of a
    /// block.
    Phi { meta: Meta, args: Vec<PhiArgument> },
}

/// An argument of a log statement.
#[derive(Debug, PartialEq, Eq)]
pub enum LogArgument {
    String(String),
    Expr(Box<Expression>),
}

/// A statement.
#[derive(Debug, PartialEq, Eq)]
#[allow(inconsistent_fields)]
pub enum Statement {
    /// The declaration of variables, with the sizes of their dimensions.
    Declaration { meta: Meta, names: Vec<VariableName>, dimensions: Vec<Expression> },
    /// A branch to the block `true_index` or, if there is one, the block
    /// `false_index`.
    IfThenElse { meta: Meta, cond: Expression, true_index: usize, false_index: Option<usize> },
    /// The return of a value.
    Return { meta: Meta, value: Expression },
    /// The assignment of `rhe` to `var`.
    Substitution { meta: Meta, var: VariableName, rhe: Expression },
    /// The constraint that two expressions are equal.
    ConstraintEquality { meta: Meta, lhe: Expression, rhe: Expression },
    /// A log statement.
    LogCall { meta: Meta, args: Vec<LogArgument> },
    /// An assertion.
    Assert { meta: Meta, arg: Expression },
}

} // verus!
