//! Utility module to convert data to types and back by
//! specific formats like: JSON, YAML.
//!
//! All types here are lazy: a value is wrapped in the format and converted
//! when the text or the binary is asked for.

pub mod yaml;

use serde::de::DeserializeOwned;
use serde::Serialize;
use vstd::prelude::*;

verus! {

/// The error of the JSON conversions. Nothing is known of what it holds.
#[verifier::external_type_specification]
#[verifier::external_body]
pub struct ExJsonError(serde_json::Error);

/// The error of the YAML conversions. Nothing is known of what it holds.
#[verifier::external_type_specification]
#[verifier::external_body]
pub struct ExYamlError(serde_yaml::Error);

/// Why a value could not be stored or restored.
#[derive(Debug)]
pub enum FormatError {
    /// Nothing was stored.
    Nothing,
    /// The JSON conversion failed.
    Json(serde_json::Error),
    /// The YAML conversion failed.
    Yaml(serde_yaml::Error),
}

/// A representation of a value which can be stored and restored as a text.
pub type Text = Result<String, FormatError>;

/// A representation of a value which can be stored and restored as a binary.
pub type Binary = Result<Vec<u8>, FormatError>;

/// A representation of an empty data. Nothing stored. Nothing restored.
#[derive(Debug, Clone, Copy)]
pub struct Nothing;

impl Nothing {
    /// Nothing as a text: the error that nothing was stored.
    pub fn into_text(self) -> (r: Text)
        ensures
            r == Err::<String, FormatError>(FormatError::Nothing),
    {
        Err(FormatError::Nothing)
    }

    /// Whatever the text holds, nothing is restored.
    pub fn from_text(_value: Text) -> Nothing {
        Nothing
    }

    /// Nothing as a binary: the error that nothing was stored.
    pub fn into_binary(self) -> (r: Binary)
        ensures
            r == Err::<Vec<u8>, FormatError>(FormatError::Nothing),
    {
        Err(FormatError::Nothing)
    }

    /// Whatever the binary holds, nothing is restored.
    pub fn from_binary(_value: Binary) -> Nothing {
        Nothing
    }
}

/// A representation of a JSON data. Use it as wrapper to
/// set a format you want to use for conversion.
pub struct Json<T>(pub T);

/// Calls `serde_json::to_string`. Nothing is claimed of what it returns:
/// that depends on how the type of the value writes itself.
#[verifier::external_body]
fn json_to_string<T: Serialize>(value: &T) -> Result<String, serde_json::Error> {
    serde_json::to_string(value)
}

/// That `serde_json::to_string`, called on `value`, returned `result`.
pub closed spec fn json_wrote_text<T: Serialize>(
    value: &T,
    result: Result<String, serde_json::Error>,
) -> bool {
    call_ensures(json_to_string::<T>, (value,), result)
}

/// Calls `serde_json::to_vec`. Nothing is claimed of what it returns.
#[verifier::external_body]
fn json_to_vec<T: Serialize>(value: &T) -> Result<Vec<u8>, serde_json::Error> {
    serde_json::to_vec(value)
}

/// That `serde_json::to_vec`, called on `value`, returned `result`.
pub closed spec fn json_wrote_binary<T: Serialize>(
    value: &T,
    result: Result<Vec<u8>, serde_json::Error>,
) -> bool {
    call_ensures(json_to_vec::<T>, (value,), result)
}

/// Calls `serde_json::from_str`. Nothing is claimed of what it returns: that
/// depends on how the type of the value reads itself.
#[verifier::external_body]
fn json_from_str<T: DeserializeOwned>(data: &String) -> Result<T, serde_json::Error> {
    serde_json::from_str(data.as_str())
}

/// Calls `serde_json::from_slice`. Nothing is claimed of what it returns.
#[verifier::external_body]
fn json_from_slice<T: DeserializeOwned>(data: &Vec<u8>) -> Result<T, serde_json::Error> {
    serde_json::from_slice(data.as_slice())
}

/// That `serde_json::from_str`, called on `data`, returned `result`.
pub closed spec fn json_read_text<T: DeserializeOwned>(
    data: String,
    result: Result<T, serde_json::Error>,
) -> bool {
    call_ensures(json_from_str::<T>, (&data,), result)
}

/// That `serde_json::from_slice`, called on `data`, returned `result`.
pub closed spec fn json_read_binary<T: DeserializeOwned>(
    data: Vec<u8>,
    result: Result<T, serde_json::Error>,
) -> bool {
    call_ensures(json_from_slice::<T>, (&data,), result)
}

/// What a JSON conversion returned, with its error as an error of this
/// module.
pub fn json_outcome<T>(result: Result<T, serde_json::Error>) -> (r: Result<T, FormatError>)
    ensures
        r == match result {
            Ok(value) => Ok::<T, FormatError>(value),
            Err(reason) => Err(FormatError::Json(reason)),
        },
{
    match result {
        Ok(value) => Ok(value),
        Err(reason) => Err(FormatError::Json(reason)),
    }
}

impl<'a, T: Serialize> Json<&'a T> {
    /// The value as a JSON text: what the JSON conversion of the wrapped
    /// value returned, and its error as the error of the JSON conversion.
    pub fn into_text(self) -> (r: Text)
        ensures
            match r {
                Ok(text) => json_wrote_text(self.0, Ok(text)),
                Err(FormatError::Json(reason)) => json_wrote_text(self.0, Err(reason)),
                Err(_) => false,
            },
    {
        let convert = json_to_string::<T>;
        json_outcome(convert(self.0))
    }

    /// The value as a JSON binary: what the JSON conversion of the wrapped
    /// value returned, bytes for bytes, and its error as the error of the
    /// JSON conversion.
    pub fn into_binary(self) -> (r: Binary)
        ensures
            match r {
                Ok(bytes) => json_wrote_binary(self.0, Ok(bytes)),
                Err(FormatError::Json(reason)) => json_wrote_binary(self.0, Err(reason)),
                Err(_) => false,
            },
    {
        let convert = json_to_vec::<T>;
        json_outcome(convert(self.0))
    }
}

impl<T: DeserializeOwned> Json<Result<T, FormatError>> {
    /// Restores a value from a JSON text. A text that is an error is handed
    /// on as it is; of a text that is there, the result is what the JSON
    /// conversion of the text returned, and its error the error of the JSON
    /// conversion.
    pub fn from_text(value: Text) -> (r: Self)
        ensures
            match value {
                Err(reason) => r.0 == Err::<T, FormatError>(reason),
                Ok(data) => match r.0 {
                    Ok(restored) => json_read_text(data, Ok(restored)),
                    Err(FormatError::Json(reason)) => json_read_text::<T>(data, Err(reason)),
                    Err(_) => false,
                },
            },
    {
        match value {
            Ok(data) => {
                let convert = json_from_str::<T>;
                Json(json_outcome(convert(&data)))
            },
            Err(reason) => Json(Err(reason)),
        }
    }

    /// Restores a value from a JSON binary. A binary that is an error is
    /// handed on as it is; of a binary that is there, the result is what
    /// the JSON conversion of the bytes returned, and its error the error of
    /// the JSON conversion.
    pub fn from_binary(value: Binary) -> (r: Self)
        ensures
            match value {
                Err(reason) => r.0 == Err::<T, FormatError>(reason),
                Ok(data) => match r.0 {
                    Ok(restored) => json_read_binary(data, Ok(restored)),
                    Err(FormatError::Json(reason)) => json_read_binary::<T>(data, Err(reason)),
                    Err(_) => false,
                },
            },
    {
        match value {
            Ok(data) => {
                let convert = json_from_slice::<T>;
                Json(json_outcome(convert(&data)))
            },
            Err(reason) => Json(Err(reason)),
        }
    }
}

} // verus!
