//! Activation function tags and their persisted names.
use vstd::prelude::*;
use vstd::string::StringExecFns;

verus! {

/// The fixed set of activation functions a node may apply.
#[derive(Clone, Copy, Debug, PartialEq, Eq, Structural)]
pub enum ActivationFunctionEnum {
    DoNothing,
    Sigmoid,
    Tanh,
    ReLU,
}

/// Namespace for the mappings between activation tags and their names.
pub struct ActivationFunction;

/// The persisted name of an activation tag.
pub open spec fn activation_name(a: ActivationFunctionEnum) -> Seq<char> {
    match a {
        ActivationFunctionEnum::DoNothing => "do_nothing"@,
        ActivationFunctionEnum::Sigmoid => "sigmoid"@,
        ActivationFunctionEnum::Tanh => "tanh"@,
        ActivationFunctionEnum::ReLU => "relu"@,
    }
}

/// The tag a persisted name stands for; an unknown name reads as the identity.
pub open spec fn activation_of_name(name: Seq<char>) -> ActivationFunctionEnum {
    if name == "sigmoid"@ {
        ActivationFunctionEnum::Sigmoid
    } else if name == "tanh"@ {
        ActivationFunctionEnum::Tanh
    } else if name == "relu"@ {
        ActivationFunctionEnum::ReLU
    } else {
        ActivationFunctionEnum::DoNothing
    }
}

impl ActivationFunction {
    /// The name under which an activation tag is persisted.
    pub fn get_name_from_enum(activation_fn_enum: ActivationFunctionEnum) -> (r: String)
        ensures
            r@ == activation_name(activation_fn_enum),
    {
        match activation_fn_enum {
            ActivationFunctionEnum::DoNothing => String::from_str("do_nothing"),
            ActivationFunctionEnum::Sigmoid => String::from_str("sigmoid"),
            ActivationFunctionEnum::Tanh => String::from_str("tanh"),
            ActivationFunctionEnum::ReLU => String::from_str("relu"),
        }
    }

    /// The activation tag a persisted name stands for. Names that are not
    /// one of the four known ones read as the identity activation.
    pub fn get_enum_from_name(activation_fn_name: String) -> (r: ActivationFunctionEnum)
        ensures
            r == activation_of_name(activation_fn_name@),
    {
        if activation_fn_name == String::from_str("sigmoid") {
            ActivationFunctionEnum::Sigmoid
        } else if activation_fn_name == String::from_str("tanh") {
            ActivationFunctionEnum::Tanh
        } else if activation_fn_name == String::from_str("relu") {
            ActivationFunctionEnum::ReLU
        } else {
            ActivationFunctionEnum::DoNothing
        }
    }
}

/// Reading back the persisted name of any activation tag gives that tag.
pub proof fn lemma_activation_name_round_trip(a: ActivationFunctionEnum)
    ensures
        activation_of_name(activation_name(a)) == a,
{
    reveal_strlit("do_nothing");
    reveal_strlit("sigmoid");
    reveal_strlit("tanh");
    reveal_strlit("relu");
    assert("do_nothing"@.len() != "sigmoid"@.len());
    assert("do_nothing"@.len() != "tanh"@.len());
    assert("do_nothing"@.len() != "relu"@.len());
    assert("tanh"@.len() != "sigmoid"@.len());
    assert("relu"@.len() != "sigmoid"@.len());
    assert("tanh"@[0] != "relu"@[0]);
}

} // verus!
