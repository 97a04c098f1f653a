//! The scanner's state: the attached target and the current address set.

use vstd::prelude::*;

use crate::addresses::{Addresses, AddrsSimple, AnyAddrs, ScanError, ScanExpr, is_subsequence};
use crate::commands::{FilterArgs, TypeArgs, ValType};
use crate::memory_reader::MemoryReader;
use crate::process::Process;
use crate::progress::{ProgressSink, Reporter};
use crate::util::{expr_for, filter_args_to_scan_expr, needs_operand};

verus! {

/// The attached target, a reader of its memory, and the address set of
/// the selected element type.
pub struct Context<R> {
    pub quit: bool,
    pub process: Option<Process>,
    pub reader: Option<R>,
    pub addrs: Option<AnyAddrs<R>>,
}

impl<R: MemoryReader> Context<R> {
    /// The address set, if any, is well formed, and an attached target
    /// comes with its reader.
    pub open spec fn wf(&self) -> bool {
        &&& self.addrs matches Some(a) ==> a.well_formed()
        &&& self.process is Some ==> self.reader is Some
    }

    pub fn new() -> (r: Context<R>)
        ensures
            r.wf(),
            !r.quit,
            r.process is None,
            r.reader is None,
            r.addrs is None,
    {
        Context { quit: false, process: None, reader: None, addrs: None }
    }

    /// Attaches to `process`, whose memory `reader` reaches. The address
    /// set of the previous target is dropped.
    pub fn process(&mut self, process: Process, reader: R)
        ensures
            final(self).wf(),
            final(self).process == Some(process),
            final(self).reader == Some(reader),
            final(self).addrs is None,
            final(self).quit == old(self).quit,
    {
        self.process = Some(process);
        self.reader = Some(reader);
        self.addrs = None;
    }

    /// Replaces the address set by an empty one of the element type
    /// `args.val_type`. Refused while no target is attached.
    pub fn change_type(&mut self, args: &TypeArgs) -> (r: Result<(), ScanError>)
        requires
            old(self).wf(),
        ensures
            final(self).wf(),
            final(self).process == old(self).process,
            final(self).reader == old(self).reader,
            final(self).quit == old(self).quit,
            r is Err <==> old(self).process is None,
            r is Err ==> r->Err_0 == ScanError::NoProcess && final(self).addrs == old(self).addrs,
            r is Ok ==> (final(self).addrs matches Some(a) && a.val_type() == args.val_type
                && a.addr_view().len() == 0 && !a.seeded()),
    {
        if self.process.is_none() {
            return Err(ScanError::NoProcess);
        }
        let reader = match &self.reader {
            Some(r) => r,
            None => {
                return Err(ScanError::NoProcess);
            },
        };
        match args.val_type {
            ValType::I8 => {
                self.addrs = Some(AnyAddrs::I8(AddrsSimple::new(reader.clone())));
            },
            ValType::U8 => {
                self.addrs = Some(AnyAddrs::U8(AddrsSimple::new(reader.clone())));
            },
            ValType::I16 => {
                self.addrs = Some(AnyAddrs::I16(AddrsSimple::new(reader.clone())));
            },
            ValType::U16 => {
                self.addrs = Some(AnyAddrs::U16(AddrsSimple::new(reader.clone())));
            },
            ValType::I32 => {
                self.addrs = Some(AnyAddrs::I32(AddrsSimple::new(reader.clone())));
            },
            ValType::U32 => {
                self.addrs = Some(AnyAddrs::U32(AddrsSimple::new(reader.clone())));
            },
            ValType::I64 => {
                self.addrs = Some(AnyAddrs::I64(AddrsSimple::new(reader.clone())));
            },
            ValType::U64 => {
                self.addrs = Some(AnyAddrs::U64(AddrsSimple::new(reader.clone())));
            },
            ValType::I128 => {
                self.addrs = Some(AnyAddrs::I128(AddrsSimple::new(reader.clone())));
            },
            ValType::U128 => {
                self.addrs = Some(AnyAddrs::U128(AddrsSimple::new(reader.clone())));
            },
        }
        Ok(())
    }

    /// Name of the element type of the address set, or `none`.
    pub fn get_type(&self) -> (r: String)
        ensures
            self.addrs is None ==> r@ == "none"@,
            self.addrs matches Some(a) ==> r@ == a.val_type().spec_name(),
    {
        match &self.addrs {
            None => String::from_str("none"),
            Some(addrs) => addrs.get_type(),
        }
    }

    /// Narrows the address set by the `filter` command `args` and returns
    /// the number of addresses left.
    pub fn filter<S: ProgressSink>(&mut self, args: &FilterArgs, progress: &mut Reporter<S>) -> (r: Result<
        usize,
        ScanError,
    >)
        requires
            old(self).wf(),
        ensures
            final(self).wf(),
            final(self).process == old(self).process,
            final(self).reader == old(self).reader,
            final(self).quit == old(self).quit,
            needs_operand(args.operator) && args.operand is None ==> r == Err::<usize, ScanError>(
                ScanError::MissingOperand,
            ),
            !(needs_operand(args.operator) && args.operand is None) && old(self).addrs is None ==> r
                == Err::<usize, ScanError>(ScanError::NoType),
            r is Err ==> (final(self).addrs is Some <==> old(self).addrs is Some),
            r is Err && old(self).addrs is Some ==> final(self).addrs->0.addr_view() == old(
                self,
            ).addrs->0.addr_view(),
            old(self).addrs is Some && !(needs_operand(args.operator) && args.operand is None) ==> (
            forall|e: ScanExpr|
                expr_for(*args, e) ==> (!old(self).addrs->0.accepts(e) <==> r == Err::<
                    usize,
                    ScanError,
                >(ScanError::BadOperand))),
            r is Ok ==> ({
                let a = old(self).addrs->0;
                let b = final(self).addrs->0;
                &&& old(self).addrs is Some
                &&& final(self).addrs is Some
                &&& r->Ok_0 == b.addr_view().len()
                &&& b.seeded()
                &&& b.val_type() == a.val_type()
                &&& a.seeded() ==> is_subsequence(b.addr_view(), a.addr_view())
                &&& exists|e: ScanExpr|
                    expr_for(*args, e) && #[trigger] a.scan_outcome(
                        &b,
                        e,
                        old(self).process->0.memory_maps@,
                    )
            }),
            old(self).addrs is Some && !(needs_operand(args.operator) && args.operand is None) && (
            forall|e: ScanExpr| expr_for(*args, e) ==> old(self).addrs->0.accepts(e)) && (old(
                self,
            ).addrs->0.seeded() || old(self).process is Some) ==> r is Ok,
    {
        let expr = match filter_args_to_scan_expr(args) {
            Ok(e) => e,
            Err(e) => {
                return Err(e);
            },
        };
        let mut addrs = match self.addrs.take() {
            Some(a) => a,
            None => {
                return Err(ScanError::NoType);
            },
        };
        let r = addrs.scan(&*self, &expr, progress);
        proof {
            if r is Ok {
                assert(expr_for(*args, expr));
            }
        }
        let n = addrs.len();
        self.addrs = Some(addrs);
        match r {
            Ok(()) => Ok(n),
            Err(e) => Err(e),
        }
    }
}

} // verus!
