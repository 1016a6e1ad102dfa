//! Expressions and their values.

pub mod expression;

pub use self::expression::all_names;
pub use self::expression::lemma_all_names;
pub use self::expression::lemma_names_imply;
pub use self::expression::lemma_same_value;
pub use self::expression::resolved;
pub use self::expression::BinaryOp;
pub use self::expression::Expression;
pub use self::expression::ExpressionKind;
pub use self::expression::ExpressionName;
pub use self::expression::ExpressionValue;
pub use self::expression::KnownNames;
pub use self::expression::Scope;
pub use self::expression::UnaryOp;
