pub mod tableau;
