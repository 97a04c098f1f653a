//! From the prompt's `filter` arguments to a scan expression.

use vstd::prelude::*;

use crate::addresses::{ScanError, ScanExpr};
use crate::commands::{FilterArgs, FilterOperator};

verus! {

/// Whether `e` is the expression that `args` asks for.
pub open spec fn expr_for(args: FilterArgs, e: ScanExpr) -> bool {
    match args.operator {
        FilterOperator::Less => e matches ScanExpr::Less(s) && s@ == args.operand->0@,
        FilterOperator::LessEqual => e matches ScanExpr::LessEqual(s) && s@ == args.operand->0@,
        FilterOperator::Greater => e matches ScanExpr::Greater(s) && s@ == args.operand->0@,
        FilterOperator::GreaterEqual => e matches ScanExpr::GreaterEqual(s) && s@
            == args.operand->0@,
        FilterOperator::Equal => e matches ScanExpr::Equal(s) && s@ == args.operand->0@,
        FilterOperator::NotEqual => e matches ScanExpr::NotEqual(s) && s@ == args.operand->0@,
        FilterOperator::Changed => e matches ScanExpr::Changed,
        FilterOperator::NotChanged => e matches ScanExpr::NotChanged,
        FilterOperator::Unknown => e matches ScanExpr::Unknown,
    }
}

/// Whether the operator compares against a literal.
pub open spec fn needs_operand(op: FilterOperator) -> bool {
    match op {
        FilterOperator::Changed => false,
        FilterOperator::NotChanged => false,
        FilterOperator::Unknown => false,
        _ => true,
    }
}

/// The scan expression of a `filter` command; a comparison without its
/// literal is refused.
pub fn filter_args_to_scan_expr(filter_args: &FilterArgs) -> (r: Result<ScanExpr, ScanError>)
    ensures
        r is Err <==> needs_operand(filter_args.operator) && filter_args.operand is None,
        r is Err ==> r->Err_0 == ScanError::MissingOperand,
        r is Ok ==> expr_for(*filter_args, r->Ok_0),
{
    let operand = match &filter_args.operand {
        Some(s) => s.clone(),
        None => {
            return match filter_args.operator {
                FilterOperator::Changed => Ok(ScanExpr::Changed),
                FilterOperator::NotChanged => Ok(ScanExpr::NotChanged),
                FilterOperator::Unknown => Ok(ScanExpr::Unknown),
                _ => Err(ScanError::MissingOperand),
            };
        },
    };
    match filter_args.operator {
        FilterOperator::Less => Ok(ScanExpr::Less(operand)),
        FilterOperator::LessEqual => Ok(ScanExpr::LessEqual(operand)),
        FilterOperator::Greater => Ok(ScanExpr::Greater(operand)),
        FilterOperator::GreaterEqual => Ok(ScanExpr::GreaterEqual(operand)),
        FilterOperator::Equal => Ok(ScanExpr::Equal(operand)),
        FilterOperator::NotEqual => Ok(ScanExpr::NotEqual(operand)),
        FilterOperator::Changed => Ok(ScanExpr::Changed),
        FilterOperator::NotChanged => Ok(ScanExpr::NotChanged),
        FilterOperator::Unknown => Ok(ScanExpr::Unknown),
    }
}

} // verus!
