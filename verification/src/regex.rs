pub mod re;
pub mod list;
pub mod parsetree;
pub mod pderiv;
pub mod syntax;
pub mod patterns;
