use vstd::prelude::*;
use crate::fields::{BaseField, SecureField, CM31, QM31};

verus! {

/// A secure field element laid out as four base field coordinates, the form
/// in which the device kernels take and return it.
#[derive(Clone, Copy, Debug, PartialEq, Eq, Structural)]
pub struct CudaSecureField {
    pub a: BaseField,
    pub b: BaseField,
    pub c: BaseField,
    pub d: BaseField,
}

impl CudaSecureField {
    /// The zero element.
    pub fn zero() -> (r: Self)
        ensures
            r.a.0 == 0 && r.b.0 == 0 && r.c.0 == 0 && r.d.0 == 0,
    {
        Self { a: BaseField::from(0u32), b: BaseField::from(0u32), c: BaseField::from(0u32), d: BaseField::from(0u32) }
    }

}

impl From<SecureField> for CudaSecureField {
    fn from(value: SecureField) -> (r: CudaSecureField) {
        CudaSecureField { a: value.0.0, b: value.0.1, c: value.1.0, d: value.1.1 }
    }
}

impl vstd::std_specs::convert::FromSpecImpl<SecureField> for CudaSecureField {
    open spec fn obeys_from_spec() -> bool {
        true
    }

    open spec fn from_spec(value: SecureField) -> CudaSecureField {
        CudaSecureField { a: value.0.0, b: value.0.1, c: value.1.0, d: value.1.1 }
    }
}

impl From<CudaSecureField> for SecureField {
    fn from(value: CudaSecureField) -> (r: SecureField) {
        QM31::from_m31(value.a, value.b, value.c, value.d)
    }
}

impl vstd::std_specs::convert::FromSpecImpl<CudaSecureField> for SecureField {
    open spec fn obeys_from_spec() -> bool {
        true
    }

    open spec fn from_spec(value: CudaSecureField) -> SecureField {
        QM31(CM31(value.a, value.b), CM31(value.c, value.d))
    }
}

/// A point `(x, y)` on the circle curve over a field.
#[derive(Clone, Copy, Debug, PartialEq, Eq, Structural)]
pub struct CirclePoint<F> {
    pub x: F,
    pub y: F,
}

/// A circle point over the base field, in the device layout.
#[derive(Clone, Copy, Debug, PartialEq, Eq, Structural)]
pub struct CirclePointBaseField {
    pub x: BaseField,
    pub y: BaseField,
}

impl From<CirclePoint<BaseField>> for CirclePointBaseField {
    fn from(value: CirclePoint<BaseField>) -> (r: CirclePointBaseField) {
        CirclePointBaseField { x: value.x, y: value.y }
    }
}

impl vstd::std_specs::convert::FromSpecImpl<CirclePoint<BaseField>> for CirclePointBaseField {
    open spec fn obeys_from_spec() -> bool {
        true
    }

    open spec fn from_spec(value: CirclePoint<BaseField>) -> CirclePointBaseField {
        CirclePointBaseField { x: value.x, y: value.y }
    }
}

/// A circle point over the secure field, in the device layout.
#[derive(Clone, Copy, Debug, PartialEq, Eq, Structural)]
pub struct CirclePointSecureField {
    pub x: CudaSecureField,
    pub y: CudaSecureField,
}

impl From<CirclePoint<SecureField>> for CirclePointSecureField {
    fn from(value: CirclePoint<SecureField>) -> (r: CirclePointSecureField) {
        CirclePointSecureField { x: CudaSecureField::from(value.x), y: CudaSecureField::from(value.y) }
    }
}

impl vstd::std_specs::convert::FromSpecImpl<CirclePoint<SecureField>> for CirclePointSecureField {
    open spec fn obeys_from_spec() -> bool {
        true
    }

    open spec fn from_spec(value: CirclePoint<SecureField>) -> CirclePointSecureField {
        CirclePointSecureField {
            x: CudaSecureField { a: value.x.0.0, b: value.x.0.1, c: value.x.1.0, d: value.x.1.1 },
            y: CudaSecureField { a: value.y.0.0, b: value.y.0.1, c: value.y.1.0, d: value.y.1.1 },
        }
    }
}

/// The position of a hash in a multi-layer batch fetch: the layer and the
/// index of the hash within it.
#[derive(Clone, Copy, Debug, PartialEq, Eq, Structural)]
pub struct LayerIndexPair {
    pub layer_idx: u32,
    pub hash_idx: u32,
}

} // verus!

verus! {

/// Converting a secure field element to the device layout and back gives the
/// element back, and so does the converse.
pub proof fn lemma_cuda_secure_field_roundtrip(x: SecureField, y: CudaSecureField)
    ensures
        <SecureField as vstd::std_specs::convert::FromSpec<CudaSecureField>>::from_spec(
            <CudaSecureField as vstd::std_specs::convert::FromSpec<SecureField>>::from_spec(x),
        ) == x,
        <CudaSecureField as vstd::std_specs::convert::FromSpec<SecureField>>::from_spec(
            <SecureField as vstd::std_specs::convert::FromSpec<CudaSecureField>>::from_spec(y),
        ) == y,
{
}

} // verus!
