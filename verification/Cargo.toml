[package]
name = "bool_expr_parser"
version = "0.1.0"
edition = "2021"
publish = false

[dependencies]
boolean_expression = "*"
thiserror = "*"
