//! Implementations of [`Read`] for product types.
//!
//! A tuple is parsed exactly as a positional record is: one component
//! after the other, in declaration order, each reading its own fields
//! from the same walker, and the whole succeeding only if every
//! component succeeds. A component's failure propagates unchanged, with
//! the fields consumed up to and including the failure left consumed.

use vstd::prelude::*;
use crate::err::Error;
use crate::reader::{Read, Walker};

verus! {

impl<'doc, A: Read<'doc>, B: Read<'doc>> Read<'doc> for (A, B) {
    open spec fn spec_parse_ok(fields: Seq<Seq<u8>>, v: (A, B)) -> bool {
        &&& A::spec_parse_ok(fields, v.0)
        &&& B::spec_parse_ok(fields.skip(A::spec_consumed(fields)), v.1)
    }

    open spec fn spec_parse_err(fields: Seq<Seq<u8>>, e: Error, n: int) -> bool {
        ||| A::spec_parse_err(fields, e, n)
        ||| ((exists|a: A| #[trigger] A::spec_parse_ok(fields, a)) && B::spec_parse_err(
            fields.skip(A::spec_consumed(fields)),
            e,
            n - A::spec_consumed(fields),
        ))
    }

    open spec fn spec_consumed(fields: Seq<Seq<u8>>) -> int {
        A::spec_consumed(fields) + B::spec_consumed(fields.skip(A::spec_consumed(fields)))
    }

    fn parse_tsv(fields: &mut Walker<'doc>) -> (r: Result<(A, B), Error>) {
        let ghost f0 = old(fields)@;
        let a = A::parse_tsv(fields)?;
        let b = match B::parse_tsv(fields) {
            Ok(b) => b,
            Err(e) => {
                proof {
                    let f1 = f0.skip(A::spec_consumed(f0));
                    let k = choose|k: int|
                        0 <= k <= f1.len() && B::spec_parse_err(f1, e, k) && fields@ == f1.skip(
                            k,
                        );
                    assert(f1.skip(k) =~= f0.skip(A::spec_consumed(f0) + k));
                    assert(Self::spec_parse_err(f0, e, A::spec_consumed(f0) + k));
                }
                return Err(e);
            },
        };
        proof {
            let f1 = f0.skip(A::spec_consumed(f0));
            assert(f1.skip(B::spec_consumed(f1)) =~= f0.skip(Self::spec_consumed(f0)));
        }
        Ok((a, b))
    }
}

impl<'doc, A: Read<'doc>, B: Read<'doc>, C: Read<'doc>> Read<'doc> for (A, B, C) {
    open spec fn spec_parse_ok(fields: Seq<Seq<u8>>, v: (A, B, C)) -> bool {
        let f1 = fields.skip(A::spec_consumed(fields));
        let f2 = f1.skip(B::spec_consumed(f1));
        &&& A::spec_parse_ok(fields, v.0)
        &&& B::spec_parse_ok(f1, v.1)
        &&& C::spec_parse_ok(f2, v.2)
    }

    open spec fn spec_parse_err(fields: Seq<Seq<u8>>, e: Error, n: int) -> bool {
        let f1 = fields.skip(A::spec_consumed(fields));
        let f2 = f1.skip(B::spec_consumed(f1));
        ||| A::spec_parse_err(fields, e, n)
        ||| ((exists|a: A| #[trigger] A::spec_parse_ok(fields, a)) && B::spec_parse_err(
            f1,
            e,
            n - A::spec_consumed(fields),
        ))
        ||| ((exists|a: A| #[trigger] A::spec_parse_ok(fields, a)) && (exists|b: B|
            #[trigger] B::spec_parse_ok(f1, b)) && C::spec_parse_err(
            f2,
            e,
            n - A::spec_consumed(fields) - B::spec_consumed(f1),
        ))
    }

    open spec fn spec_consumed(fields: Seq<Seq<u8>>) -> int {
        let f1 = fields.skip(A::spec_consumed(fields));
        let f2 = f1.skip(B::spec_consumed(f1));
        A::spec_consumed(fields) + B::spec_consumed(f1) + C::spec_consumed(f2)
    }

    fn parse_tsv(fields: &mut Walker<'doc>) -> (r: Result<(A, B, C), Error>) {
        let ghost f0 = old(fields)@;
        let a = A::parse_tsv(fields)?;
        let b = match B::parse_tsv(fields) {
            Ok(b) => b,
            Err(e) => {
                proof {
                    let f1 = f0.skip(A::spec_consumed(f0));
                    let k = choose|k: int|
                        0 <= k <= f1.len() && B::spec_parse_err(f1, e, k) && fields@ == f1.skip(
                            k,
                        );
                    assert(f1.skip(k) =~= f0.skip(A::spec_consumed(f0) + k));
                    assert(Self::spec_parse_err(f0, e, A::spec_consumed(f0) + k));
                }
                return Err(e);
            },
        };
        proof {
            let f1 = f0.skip(A::spec_consumed(f0));
            assert(f1.skip(B::spec_consumed(f1)) =~= f0.skip(
                A::spec_consumed(f0) + B::spec_consumed(f1),
            ));
        }
        let c = match C::parse_tsv(fields) {
            Ok(c) => c,
            Err(e) => {
                proof {
                    let f1 = f0.skip(A::spec_consumed(f0));
                    let f2 = f1.skip(B::spec_consumed(f1));
                    let k = choose|k: int|
                        0 <= k <= f2.len() && C::spec_parse_err(f2, e, k) && fields@ == f2.skip(
                            k,
                        );
                    assert(f2.skip(k) =~= f0.skip(
                        A::spec_consumed(f0) + B::spec_consumed(f1) + k,
                    ));
                    assert(Self::spec_parse_err(
                        f0,
                        e,
                        A::spec_consumed(f0) + B::spec_consumed(f1) + k,
                    ));
                }
                return Err(e);
            },
        };
        proof {
            let f1 = f0.skip(A::spec_consumed(f0));
            let f2 = f1.skip(B::spec_consumed(f1));
            assert(f2 =~= f0.skip(A::spec_consumed(f0) + B::spec_consumed(f1)));
            assert(f2.skip(C::spec_consumed(f2)) =~= f0.skip(Self::spec_consumed(f0)));
        }
        Ok((a, b, c))
    }
}

impl<'doc, A: Read<'doc>, B: Read<'doc>, C: Read<'doc>, D: Read<'doc>> Read<'doc> for (A, B, C, D) {
    open spec fn spec_parse_ok(fields: Seq<Seq<u8>>, v: (A, B, C, D)) -> bool {
        let f1 = fields.skip(A::spec_consumed(fields));
        let f2 = f1.skip(B::spec_consumed(f1));
        let f3 = f2.skip(C::spec_consumed(f2));
        &&& A::spec_parse_ok(fields, v.0)
        &&& B::spec_parse_ok(f1, v.1)
        &&& C::spec_parse_ok(f2, v.2)
        &&& D::spec_parse_ok(f3, v.3)
    }

    open spec fn spec_parse_err(fields: Seq<Seq<u8>>, e: Error, n: int) -> bool {
        let f1 = fields.skip(A::spec_consumed(fields));
        let f2 = f1.skip(B::spec_consumed(f1));
        let f3 = f2.skip(C::spec_consumed(f2));
        ||| A::spec_parse_err(fields, e, n)
        ||| ((exists|a: A| #[trigger] A::spec_parse_ok(fields, a)) && B::spec_parse_err(
            f1,
            e,
            n - A::spec_consumed(fields),
        ))
        ||| ((exists|a: A| #[trigger] A::spec_parse_ok(fields, a)) && (exists|b: B|
            #[trigger] B::spec_parse_ok(f1, b)) && C::spec_parse_err(
            f2,
            e,
            n - A::spec_consumed(fields) - B::spec_consumed(f1),
        ))
        ||| ((exists|a: A| #[trigger] A::spec_parse_ok(fields, a)) && (exists|b: B|
            #[trigger] B::spec_parse_ok(f1, b)) && (exists|c: C|
            #[trigger] C::spec_parse_ok(f2, c)) && D::spec_parse_err(
            f3,
            e,
            n - A::spec_consumed(fields) - B::spec_consumed(f1) - C::spec_consumed(f2),
        ))
    }

    open spec fn spec_consumed(fields: Seq<Seq<u8>>) -> int {
        let f1 = fields.skip(A::spec_consumed(fields));
        let f2 = f1.skip(B::spec_consumed(f1));
        let f3 = f2.skip(C::spec_consumed(f2));
        A::spec_consumed(fields) + B::spec_consumed(f1) + C::spec_consumed(f2) + D::spec_consumed(
            f3,
        )
    }

    fn parse_tsv(fields: &mut Walker<'doc>) -> (r: Result<(A, B, C, D), Error>) {
        let ghost f0 = old(fields)@;
        let a = A::parse_tsv(fields)?;
        let b = match B::parse_tsv(fields) {
            Ok(b) => b,
            Err(e) => {
                proof {
                    let f1 = f0.skip(A::spec_consumed(f0));
                    let k = choose|k: int|
                        0 <= k <= f1.len() && B::spec_parse_err(f1, e, k) && fields@ == f1.skip(
                            k,
                        );
                    assert(f1.skip(k) =~= f0.skip(A::spec_consumed(f0) + k));
                    assert(Self::spec_parse_err(f0, e, A::spec_consumed(f0) + k));
                }
                return Err(e);
            },
        };
        proof {
            let f1 = f0.skip(A::spec_consumed(f0));
            assert(f1.skip(B::spec_consumed(f1)) =~= f0.skip(
                A::spec_consumed(f0) + B::spec_consumed(f1),
            ));
        }
        let c = match C::parse_tsv(fields) {
            Ok(c) => c,
            Err(e) => {
                proof {
                    let f1 = f0.skip(A::spec_consumed(f0));
                    let f2 = f1.skip(B::spec_consumed(f1));
                    let k = choose|k: int|
                        0 <= k <= f2.len() && C::spec_parse_err(f2, e, k) && fields@ == f2.skip(
                            k,
                        );
                    assert(f2.skip(k) =~= f0.skip(
                        A::spec_consumed(f0) + B::spec_consumed(f1) + k,
                    ));
                    assert(Self::spec_parse_err(
                        f0,
                        e,
                        A::spec_consumed(f0) + B::spec_consumed(f1) + k,
                    ));
                }
                return Err(e);
            },
        };
        proof {
            let f1 = f0.skip(A::spec_consumed(f0));
            let f2 = f1.skip(B::spec_consumed(f1));
            assert(f2 =~= f0.skip(A::spec_consumed(f0) + B::spec_consumed(f1)));
            assert(f2.skip(C::spec_consumed(f2)) =~= f0.skip(
                A::spec_consumed(f0) + B::spec_consumed(f1) + C::spec_consumed(f2),
            ));
        }
        let d = match D::parse_tsv(fields) {
            Ok(d) => d,
            Err(e) => {
                proof {
                    let f1 = f0.skip(A::spec_consumed(f0));
                    let f2 = f1.skip(B::spec_consumed(f1));
                    let f3 = f2.skip(C::spec_consumed(f2));
                    let k = choose|k: int|
                        0 <= k <= f3.len() && D::spec_parse_err(f3, e, k) && fields@ == f3.skip(
                            k,
                        );
                    assert(f3.skip(k) =~= f0.skip(
                        A::spec_consumed(f0) + B::spec_consumed(f1) + C::spec_consumed(f2) + k,
                    ));
                    assert(Self::spec_parse_err(
                        f0,
                        e,
                        A::spec_consumed(f0) + B::spec_consumed(f1) + C::spec_consumed(f2) + k,
                    ));
                }
                return Err(e);
            },
        };
        proof {
            let f1 = f0.skip(A::spec_consumed(f0));
            let f2 = f1.skip(B::spec_consumed(f1));
            let f3 = f2.skip(C::spec_consumed(f2));
            assert(f2 =~= f0.skip(A::spec_consumed(f0) + B::spec_consumed(f1)));
            assert(f3 =~= f0.skip(
                A::spec_consumed(f0) + B::spec_consumed(f1) + C::spec_consumed(f2),
            ));
            assert(f3.skip(D::spec_consumed(f3)) =~= f0.skip(Self::spec_consumed(f0)));
        }
        Ok((a, b, c, d))
    }
}

} // verus!
