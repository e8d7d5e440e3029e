//! Contains an implementation of YAML serialization format.

use super::{Binary, FormatError, Text};
use serde::de::DeserializeOwned;
use serde::Serialize;
use vstd::prelude::*;
use vstd::utf8::encode_utf8;

verus! {

/// A representation of a YAML data. Use it as wrapper to
/// set a format you want to use for conversion.
pub struct Yaml<T>(pub T);

/// Calls `serde_yaml::to_string`. Nothing is claimed of what it returns:
/// that depends on how the type of the value writes itself.
#[verifier::external_body]
fn yaml_to_string<T: Serialize>(value: &T) -> Result<String, serde_yaml::Error> {
    serde_yaml::to_string(value)
}

/// That `serde_yaml::to_string`, called on `value`, returned `result`.
pub closed spec fn yaml_wrote<T: Serialize>(
    value: &T,
    result: Result<String, serde_yaml::Error>,
) -> bool {
    call_ensures(yaml_to_string::<T>, (value,), result)
}

/// Calls `serde_yaml::from_str`. Nothing is claimed of what it returns: that
/// depends on how the type of the value reads itself.
#[verifier::external_body]
fn yaml_from_str<T: DeserializeOwned>(data: &String) -> Result<T, serde_yaml::Error> {
    serde_yaml::from_str(data.as_str())
}

/// Calls `serde_yaml::from_slice`. Nothing is claimed of what it returns.
#[verifier::external_body]
fn yaml_from_slice<T: DeserializeOwned>(data: &Vec<u8>) -> Result<T, serde_yaml::Error> {
    serde_yaml::from_slice(data.as_slice())
}

/// That `serde_yaml::from_str`, called on `data`, returned `result`.
pub closed spec fn yaml_read_text<T: DeserializeOwned>(
    data: String,
    result: Result<T, serde_yaml::Error>,
) -> bool {
    call_ensures(yaml_from_str::<T>, (&data,), result)
}

/// That `serde_yaml::from_slice`, called on `data`, returned `result`.
pub closed spec fn yaml_read_binary<T: DeserializeOwned>(
    data: Vec<u8>,
    result: Result<T, serde_yaml::Error>,
) -> bool {
    call_ensures(yaml_from_slice::<T>, (&data,), result)
}

/// What a YAML conversion returned, with its error as an error of the
/// formats.
pub fn yaml_outcome<T>(result: Result<T, serde_yaml::Error>) -> (r: Result<T, FormatError>)
    ensures
        r == match result {
            Ok(value) => Ok::<T, FormatError>(value),
            Err(reason) => Err(FormatError::Yaml(reason)),
        },
{
    match result {
        Ok(value) => Ok(value),
        Err(reason) => Err(FormatError::Yaml(reason)),
    }
}

impl<'a, T: Serialize> Yaml<&'a T> {
    /// The value as a YAML text: what the YAML conversion of the wrapped
    /// value returned, and its error as the error of the YAML conversion.
    pub fn into_text(self) -> (r: Text)
        ensures
            match r {
                Ok(text) => yaml_wrote(self.0, Ok(text)),
                Err(FormatError::Yaml(reason)) => yaml_wrote(self.0, Err(reason)),
                Err(_) => false,
            },
    {
        let convert = yaml_to_string::<T>;
        yaml_outcome(convert(self.0))
    }

    /// The value as a YAML binary: the bytes, in UTF-8, of the text that
    /// the YAML conversion of the wrapped value returned, or its error as
    /// the error of the YAML conversion.
    pub fn into_binary(self) -> (r: Binary)
        ensures
            match r {
                Ok(bytes) => exists|text: String| #[trigger]
                    yaml_wrote(self.0, Ok(text)) && bytes@ == encode_utf8(text@),
                Err(FormatError::Yaml(reason)) => yaml_wrote(self.0, Err(reason)),
                Err(_) => false,
            },
    {
        let convert = yaml_to_string::<T>;
        match yaml_outcome(convert(self.0)) {
            Ok(text) => {
                let bytes = text.as_str().as_bytes_vec();
                assert(yaml_wrote(self.0, Ok(text)) && bytes@ == encode_utf8(text@));
                Ok(bytes)
            },
            Err(reason) => Err(reason),
        }
    }
}

impl<T: DeserializeOwned> Yaml<Result<T, FormatError>> {
    /// Restores a value from a YAML text. A text that is an error is handed
    /// on as it is; of a text that is there, the result is what the YAML
    /// conversion of the text returned, and its error the error of the YAML
    /// conversion.
    pub fn from_text(value: Text) -> (r: Self)
        ensures
            match value {
                Err(reason) => r.0 == Err::<T, FormatError>(reason),
                Ok(data) => match r.0 {
                    Ok(restored) => yaml_read_text(data, Ok(restored)),
                    Err(FormatError::Yaml(reason)) => yaml_read_text::<T>(data, Err(reason)),
                    Err(_) => false,
                },
            },
    {
        match value {
            Ok(data) => {
                let convert = yaml_from_str::<T>;
                Yaml(yaml_outcome(convert(&data)))
            },
            Err(reason) => Yaml(Err(reason)),
        }
    }

    /// Restores a value from a YAML binary. A binary that is an error is
    /// handed on as it is; of a binary that is there, the result is what
    /// the YAML conversion of the bytes returned, and its error the error of
    /// the YAML conversion.
    pub fn from_binary(value: Binary) -> (r: Self)
        ensures
            match value {
                Err(reason) => r.0 == Err::<T, FormatError>(reason),
                Ok(data) => match r.0 {
                    Ok(restored) => yaml_read_binary(data, Ok(restored)),
                    Err(FormatError::Yaml(reason)) => yaml_read_binary::<T>(data, Err(reason)),
                    Err(_) => false,
                },
            },
    {
        match value {
            Ok(data) => {
                let convert = yaml_from_slice::<T>;
                Yaml(yaml_outcome(convert(&data)))
            },
            Err(reason) => Yaml(Err(reason)),
        }
    }
}

} // verus!
