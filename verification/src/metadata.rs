use vstd::prelude::*;
use vstd::string::*;

use crate::error::SdkError;
use crate::text::{blank, is_blank};

verus! {

/// What a model is, what it is for and what it is not for.
#[derive(Debug, Clone)]
pub struct ModelCard {
    pub model_id: String,
    pub model_version: String,
    pub model_type: String,
    pub intended_use: String,
    pub input_dimension: usize,
    pub output_labels: Vec<String>,
    pub training_data_statement: String,
    pub limitations: Vec<String>,
    pub license: String,
}

impl ModelCard {
    pub open spec fn identifiers_ok(&self) -> bool {
        !is_blank(self.model_id@) && !is_blank(self.model_version@) && !is_blank(self.model_type@)
    }

    pub open spec fn narrative_ok(&self) -> bool {
        !is_blank(self.intended_use@) && !is_blank(self.training_data_statement@) && !is_blank(
            self.license@,
        )
    }

    /// A card is complete when its identifiers and narrative fields are not
    /// blank and its input dimension is positive.
    pub fn validate(&self) -> (r: Result<(), SdkError>)
        ensures
            r is Ok <==> self.identifiers_ok() && self.input_dimension > 0 && self.narrative_ok(),
            r matches Err(e) ==> e matches SdkError::InvalidArgument(m) && m@ == if !self.identifiers_ok() {
                "model card identifiers must be non-empty"@
            } else if self.input_dimension == 0 {
                "model card input_dimension must be positive"@
            } else {
                "model card narrative fields must be non-empty"@
            },
    {
        if blank(self.model_id.as_str()) || blank(self.model_version.as_str()) || blank(
            self.model_type.as_str(),
        ) {
            return Err(
                SdkError::InvalidArgument(String::from_str("model card identifiers must be non-empty")),
            );
        }
        if self.input_dimension == 0 {
            return Err(
                SdkError::InvalidArgument(
                    String::from_str("model card input_dimension must be positive"),
                ),
            );
        }
        if blank(self.intended_use.as_str()) || blank(self.training_data_statement.as_str()) || blank(
            self.license.as_str(),
        ) {
            return Err(
                SdkError::InvalidArgument(
                    String::from_str("model card narrative fields must be non-empty"),
                ),
            );
        }
        Ok(())
    }
}

} // verus!
