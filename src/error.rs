use vstd::prelude::*;

verus! {

/// Why a text could not be read as an address or a network, or why a
/// network could not be divided.
#[derive(Debug, Clone, Copy, PartialEq, Eq, Structural)]
pub enum IPError {
    /// The prefix is a number above 32.
    InvalidPrefix,
    /// The text is not a dotted quad followed by `/` and a number.
    InvalidAddress,
    /// The requested subnet prefix is not longer than the network's own.
    InvalidSubnetPrefix,
    /// The address has host bits set, so it names no network.
    InvalidNetworkAddress,
}

impl IPError {
    /// A sentence that describes the error to a person.
    pub fn message(&self) -> &'static str {
        match self {
            IPError::InvalidPrefix => "Se esperaba un prefijo entre 0 y 32",
            IPError::InvalidAddress => "Formato de direccion incorrecto, se esperaba x.x.x.x/x para 0 >= x <= 255",
            IPError::InvalidSubnetPrefix => "El prefijo de subneteo es incorrecto",
            IPError::InvalidNetworkAddress => "La direccion para subneteo debe ser de red",
        }
    }
}

} // verus!
