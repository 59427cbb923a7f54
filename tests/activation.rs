use rust_rl::activation::{ActivationFunction, ActivationFunctionEnum};

#[test]
fn names_of_each_activation() {
    assert_eq!(ActivationFunction::get_name_from_enum(ActivationFunctionEnum::DoNothing), "do_nothing");
    assert_eq!(ActivationFunction::get_name_from_enum(ActivationFunctionEnum::Sigmoid), "sigmoid");
    assert_eq!(ActivationFunction::get_name_from_enum(ActivationFunctionEnum::Tanh), "tanh");
    assert_eq!(ActivationFunction::get_name_from_enum(ActivationFunctionEnum::ReLU), "relu");
}

#[test]
fn activation_from_known_names() {
    assert_eq!(ActivationFunction::get_enum_from_name(String::from("sigmoid")), ActivationFunctionEnum::Sigmoid);
    assert_eq!(ActivationFunction::get_enum_from_name(String::from("tanh")), ActivationFunctionEnum::Tanh);
    assert_eq!(ActivationFunction::get_enum_from_name(String::from("relu")), ActivationFunctionEnum::ReLU);
    assert_eq!(ActivationFunction::get_enum_from_name(String::from("do_nothing")), ActivationFunctionEnum::DoNothing);
}

#[test]
fn unknown_activation_name_reads_as_identity() {
    assert_eq!(ActivationFunction::get_enum_from_name(String::from("softplus")), ActivationFunctionEnum::DoNothing);
    assert_eq!(ActivationFunction::get_enum_from_name(String::new()), ActivationFunctionEnum::DoNothing);
    assert_eq!(ActivationFunction::get_enum_from_name(String::from("ReLU")), ActivationFunctionEnum::DoNothing);
}

#[test]
fn activation_name_round_trip() {
    for a in [
        ActivationFunctionEnum::DoNothing,
        ActivationFunctionEnum::Sigmoid,
        ActivationFunctionEnum::Tanh,
        ActivationFunctionEnum::ReLU,
    ] {
        assert_eq!(ActivationFunction::get_enum_from_name(ActivationFunction::get_name_from_enum(a)), a);
    }
}
