//! Anchors: values in a graph of incremental recomputation.

pub mod collections;
pub mod expert;
pub mod singlethread;

use vstd::prelude::*;
use vstd::std_specs::convert::FromSpec;

verus! {

/// Functions that are called on a tuple of arguments and whose result is made into `Res2`.
pub trait FnMutInto2<Res2, Args> {
    /// It can be called on `args`.
    spec fn takes2(&self, args: Args) -> bool;

    /// It may give `res` on `args`.
    spec fn gives2(&self, args: Args, res: Res2) -> bool;

    fn call_into2(&mut self, args: Args) -> (res: Res2)
        requires
            old(self).takes2(args),
        ensures
            old(self).gives2(args, res),
    ;
}

/// `res` is what `out` is converted into.
pub open spec fn made_into<Out, Res2: From<Out>>(out: Out, res: Res2) -> bool {
    Res2::obeys_from_spec() ==> res == Res2::from_spec(out)
}

/// Functions that are called on a tuple of arguments and whose result is made into what the caller wants.
pub trait FnMutInto<Args, Out> {
    /// It can be called on `args`.
    spec fn takes(&self, args: Args) -> bool;

    /// It may give `out` on `args`.
    spec fn gives(&self, args: Args, out: Out) -> bool;

    fn call_into<Res2: From<Out>>(&mut self, args: Args) -> (res: Res2)
        requires
            old(self).takes(args),
        ensures
            exists|out: Out|
                old(self).gives(args, out) && #[trigger] made_into(out, res),
    ;
}

impl<A0, R, F: FnMut(A0) -> R> FnMutInto<(A0,), R> for F {
    open spec fn takes(&self, args: (A0,)) -> bool {
        call_requires(*self, args)
    }

    open spec fn gives(&self, args: (A0,), out: R) -> bool {
        call_ensures(*self, args, out)
    }

    fn call_into<Res2: From<R>>(&mut self, args: (A0,)) -> (res: Res2) {
        let out: R = self(args.0);
        let ghost given = out;
        let res: Res2 = Res2::from(out);
        assert(made_into(given, res));
        res
    }
}

impl<A0, R, Res2: From<R>, F: FnMut(A0) -> R> FnMutInto2<Res2, (A0,)> for F {
    open spec fn takes2(&self, args: (A0,)) -> bool {
        call_requires(*self, args)
    }

    open spec fn gives2(&self, args: (A0,), res: Res2) -> bool {
        exists|out: R| #[trigger]
            call_ensures(*self, args, out) && (Res2::obeys_from_spec() ==> res == Res2::from_spec(out))
    }

    fn call_into2(&mut self, args: (A0,)) -> (res: Res2) {
        let out: R = self(args.0);
        Res2::from(out)
    }
}

impl<A0, A1, R, F: FnMut(A0, A1) -> R> FnMutInto<(A0, A1), R> for F {
    open spec fn takes(&self, args: (A0, A1)) -> bool {
        call_requires(*self, args)
    }

    open spec fn gives(&self, args: (A0, A1), out: R) -> bool {
        call_ensures(*self, args, out)
    }

    fn call_into<Res2: From<R>>(&mut self, args: (A0, A1)) -> (res: Res2) {
        let out: R = self(args.0, args.1);
        let ghost given = out;
        let res: Res2 = Res2::from(out);
        assert(made_into(given, res));
        res
    }
}

impl<A0, A1, R, Res2: From<R>, F: FnMut(A0, A1) -> R> FnMutInto2<Res2, (A0, A1)> for F {
    open spec fn takes2(&self, args: (A0, A1)) -> bool {
        call_requires(*self, args)
    }

    open spec fn gives2(&self, args: (A0, A1), res: Res2) -> bool {
        exists|out: R| #[trigger]
            call_ensures(*self, args, out) && (Res2::obeys_from_spec() ==> res == Res2::from_spec(out))
    }

    fn call_into2(&mut self, args: (A0, A1)) -> (res: Res2) {
        let out: R = self(args.0, args.1);
        Res2::from(out)
    }
}

impl<A0, A1, A2, R, F: FnMut(A0, A1, A2) -> R> FnMutInto<(A0, A1, A2), R> for F {
    open spec fn takes(&self, args: (A0, A1, A2)) -> bool {
        call_requires(*self, args)
    }

    open spec fn gives(&self, args: (A0, A1, A2), out: R) -> bool {
        call_ensures(*self, args, out)
    }

    fn call_into<Res2: From<R>>(&mut self, args: (A0, A1, A2)) -> (res: Res2) {
        let out: R = self(args.0, args.1, args.2);
        let ghost given = out;
        let res: Res2 = Res2::from(out);
        assert(made_into(given, res));
        res
    }
}

impl<A0, A1, A2, R, Res2: From<R>, F: FnMut(A0, A1, A2) -> R> FnMutInto2<Res2, (A0, A1, A2)> for F {
    open spec fn takes2(&self, args: (A0, A1, A2)) -> bool {
        call_requires(*self, args)
    }

    open spec fn gives2(&self, args: (A0, A1, A2), res: Res2) -> bool {
        exists|out: R| #[trigger]
            call_ensures(*self, args, out) && (Res2::obeys_from_spec() ==> res == Res2::from_spec(out))
    }

    fn call_into2(&mut self, args: (A0, A1, A2)) -> (res: Res2) {
        let out: R = self(args.0, args.1, args.2);
        Res2::from(out)
    }
}

impl<A0, A1, A2, A3, R, F: FnMut(A0, A1, A2, A3) -> R> FnMutInto<(A0, A1, A2, A3), R> for F {
    open spec fn takes(&self, args: (A0, A1, A2, A3)) -> bool {
        call_requires(*self, args)
    }

    open spec fn gives(&self, args: (A0, A1, A2, A3), out: R) -> bool {
        call_ensures(*self, args, out)
    }

    fn call_into<Res2: From<R>>(&mut self, args: (A0, A1, A2, A3)) -> (res: Res2) {
        let out: R = self(args.0, args.1, args.2, args.3);
        let ghost given = out;
        let res: Res2 = Res2::from(out);
        assert(made_into(given, res));
        res
    }
}

impl<A0, A1, A2, A3, R, Res2: From<R>, F: FnMut(A0, A1, A2, A3) -> R> FnMutInto2<Res2, (A0, A1, A2, A3)> for F {
    open spec fn takes2(&self, args: (A0, A1, A2, A3)) -> bool {
        call_requires(*self, args)
    }

    open spec fn gives2(&self, args: (A0, A1, A2, A3), res: Res2) -> bool {
        exists|out: R| #[trigger]
            call_ensures(*self, args, out) && (Res2::obeys_from_spec() ==> res == Res2::from_spec(out))
    }

    fn call_into2(&mut self, args: (A0, A1, A2, A3)) -> (res: Res2) {
        let out: R = self(args.0, args.1, args.2, args.3);
        Res2::from(out)
    }
}

impl<A0, A1, A2, A3, A4, R, F: FnMut(A0, A1, A2, A3, A4) -> R> FnMutInto<(A0, A1, A2, A3, A4), R> for F {
    open spec fn takes(&self, args: (A0, A1, A2, A3, A4)) -> bool {
        call_requires(*self, args)
    }

    open spec fn gives(&self, args: (A0, A1, A2, A3, A4), out: R) -> bool {
        call_ensures(*self, args, out)
    }

    fn call_into<Res2: From<R>>(&mut self, args: (A0, A1, A2, A3, A4)) -> (res: Res2) {
        let out: R = self(args.0, args.1, args.2, args.3, args.4);
        let ghost given = out;
        let res: Res2 = Res2::from(out);
        assert(made_into(given, res));
        res
    }
}

impl<A0, A1, A2, A3, A4, R, Res2: From<R>, F: FnMut(A0, A1, A2, A3, A4) -> R> FnMutInto2<Res2, (A0, A1, A2, A3, A4)> for F {
    open spec fn takes2(&self, args: (A0, A1, A2, A3, A4)) -> bool {
        call_requires(*self, args)
    }

    open spec fn gives2(&self, args: (A0, A1, A2, A3, A4), res: Res2) -> bool {
        exists|out: R| #[trigger]
            call_ensures(*self, args, out) && (Res2::obeys_from_spec() ==> res == Res2::from_spec(out))
    }

    fn call_into2(&mut self, args: (A0, A1, A2, A3, A4)) -> (res: Res2) {
        let out: R = self(args.0, args.1, args.2, args.3, args.4);
        Res2::from(out)
    }
}

impl<A0, A1, A2, A3, A4, A5, R, F: FnMut(A0, A1, A2, A3, A4, A5) -> R> FnMutInto<(A0, A1, A2, A3, A4, A5), R> for F {
    open spec fn takes(&self, args: (A0, A1, A2, A3, A4, A5)) -> bool {
        call_requires(*self, args)
    }

    open spec fn gives(&self, args: (A0, A1, A2, A3, A4, A5), out: R) -> bool {
        call_ensures(*self, args, out)
    }

    fn call_into<Res2: From<R>>(&mut self, args: (A0, A1, A2, A3, A4, A5)) -> (res: Res2) {
        let out: R = self(args.0, args.1, args.2, args.3, args.4, args.5);
        let ghost given = out;
        let res: Res2 = Res2::from(out);
        assert(made_into(given, res));
        res
    }
}

impl<A0, A1, A2, A3, A4, A5, R, Res2: From<R>, F: FnMut(A0, A1, A2, A3, A4, A5) -> R> FnMutInto2<Res2, (A0, A1, A2, A3, A4, A5)> for F {
    open spec fn takes2(&self, args: (A0, A1, A2, A3, A4, A5)) -> bool {
        call_requires(*self, args)
    }

    open spec fn gives2(&self, args: (A0, A1, A2, A3, A4, A5), res: Res2) -> bool {
        exists|out: R| #[trigger]
            call_ensures(*self, args, out) && (Res2::obeys_from_spec() ==> res == Res2::from_spec(out))
    }

    fn call_into2(&mut self, args: (A0, A1, A2, A3, A4, A5)) -> (res: Res2) {
        let out: R = self(args.0, args.1, args.2, args.3, args.4, args.5);
        Res2::from(out)
    }
}

impl<A0, A1, A2, A3, A4, A5, A6, R, F: FnMut(A0, A1, A2, A3, A4, A5, A6) -> R> FnMutInto<(A0, A1, A2, A3, A4, A5, A6), R> for F {
    open spec fn takes(&self, args: (A0, A1, A2, A3, A4, A5, A6)) -> bool {
        call_requires(*self, args)
    }

    open spec fn gives(&self, args: (A0, A1, A2, A3, A4, A5, A6), out: R) -> bool {
        call_ensures(*self, args, out)
    }

    fn call_into<Res2: From<R>>(&mut self, args: (A0, A1, A2, A3, A4, A5, A6)) -> (res: Res2) {
        let out: R = self(args.0, args.1, args.2, args.3, args.4, args.5, args.6);
        let ghost given = out;
        let res: Res2 = Res2::from(out);
        assert(made_into(given, res));
        res
    }
}

impl<A0, A1, A2, A3, A4, A5, A6, R, Res2: From<R>, F: FnMut(A0, A1, A2, A3, A4, A5, A6) -> R> FnMutInto2<Res2, (A0, A1, A2, A3, A4, A5, A6)> for F {
    open spec fn takes2(&self, args: (A0, A1, A2, A3, A4, A5, A6)) -> bool {
        call_requires(*self, args)
    }

    open spec fn gives2(&self, args: (A0, A1, A2, A3, A4, A5, A6), res: Res2) -> bool {
        exists|out: R| #[trigger]
            call_ensures(*self, args, out) && (Res2::obeys_from_spec() ==> res == Res2::from_spec(out))
    }

    fn call_into2(&mut self, args: (A0, A1, A2, A3, A4, A5, A6)) -> (res: Res2) {
        let out: R = self(args.0, args.1, args.2, args.3, args.4, args.5, args.6);
        Res2::from(out)
    }
}

impl<A0, A1, A2, A3, A4, A5, A6, A7, R, F: FnMut(A0, A1, A2, A3, A4, A5, A6, A7) -> R> FnMutInto<(A0, A1, A2, A3, A4, A5, A6, A7), R> for F {
    open spec fn takes(&self, args: (A0, A1, A2, A3, A4, A5, A6, A7)) -> bool {
        call_requires(*self, args)
    }

    open spec fn gives(&self, args: (A0, A1, A2, A3, A4, A5, A6, A7), out: R) -> bool {
        call_ensures(*self, args, out)
    }

    fn call_into<Res2: From<R>>(&mut self, args: (A0, A1, A2, A3, A4, A5, A6, A7)) -> (res: Res2) {
        let out: R = self(args.0, args.1, args.2, args.3, args.4, args.5, args.6, args.7);
        let ghost given = out;
        let res: Res2 = Res2::from(out);
        assert(made_into(given, res));
        res
    }
}

impl<A0, A1, A2, A3, A4, A5, A6, A7, R, Res2: From<R>, F: FnMut(A0, A1, A2, A3, A4, A5, A6, A7) -> R> FnMutInto2<Res2, (A0, A1, A2, A3, A4, A5, A6, A7)> for F {
    open spec fn takes2(&self, args: (A0, A1, A2, A3, A4, A5, A6, A7)) -> bool {
        call_requires(*self, args)
    }

    open spec fn gives2(&self, args: (A0, A1, A2, A3, A4, A5, A6, A7), res: Res2) -> bool {
        exists|out: R| #[trigger]
            call_ensures(*self, args, out) && (Res2::obeys_from_spec() ==> res == Res2::from_spec(out))
    }

    fn call_into2(&mut self, args: (A0, A1, A2, A3, A4, A5, A6, A7)) -> (res: Res2) {
        let out: R = self(args.0, args.1, args.2, args.3, args.4, args.5, args.6, args.7);
        Res2::from(out)
    }
}

impl<A0, A1, A2, A3, A4, A5, A6, A7, A8, R, F: FnMut(A0, A1, A2, A3, A4, A5, A6, A7, A8) -> R> FnMutInto<(A0, A1, A2, A3, A4, A5, A6, A7, A8), R> for F {
    open spec fn takes(&self, args: (A0, A1, A2, A3, A4, A5, A6, A7, A8)) -> bool {
        call_requires(*self, args)
    }

    open spec fn gives(&self, args: (A0, A1, A2, A3, A4, A5, A6, A7, A8), out: R) -> bool {
        call_ensures(*self, args, out)
    }

    fn call_into<Res2: From<R>>(&mut self, args: (A0, A1, A2, A3, A4, A5, A6, A7, A8)) -> (res: Res2) {
        let out: R = self(args.0, args.1, args.2, args.3, args.4, args.5, args.6, args.7, args.8);
        let ghost given = out;
        let res: Res2 = Res2::from(out);
        assert(made_into(given, res));
        res
    }
}

impl<A0, A1, A2, A3, A4, A5, A6, A7, A8, R, Res2: From<R>, F: FnMut(A0, A1, A2, A3, A4, A5, A6, A7, A8) -> R> FnMutInto2<Res2, (A0, A1, A2, A3, A4, A5, A6, A7, A8)> for F {
    open spec fn takes2(&self, args: (A0, A1, A2, A3, A4, A5, A6, A7, A8)) -> bool {
        call_requires(*self, args)
    }

    open spec fn gives2(&self, args: (A0, A1, A2, A3, A4, A5, A6, A7, A8), res: Res2) -> bool {
        exists|out: R| #[trigger]
            call_ensures(*self, args, out) && (Res2::obeys_from_spec() ==> res == Res2::from_spec(out))
    }

    fn call_into2(&mut self, args: (A0, A1, A2, A3, A4, A5, A6, A7, A8)) -> (res: Res2) {
        let out: R = self(args.0, args.1, args.2, args.3, args.4, args.5, args.6, args.7, args.8);
        Res2::from(out)
    }
}

} // verus!
