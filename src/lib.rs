//! Core of a language server for the CCS-C dialect of C: the text and position
//! engine of each tracked document, the edit pipeline that feeds an incremental
//! parser, syntax and compiler diagnostics, and the project index built from an
//! MPLAB `.mcp` descriptor.

pub mod compiler_errors;
pub mod diagnostic;
pub mod document;
pub mod edit;
pub mod error;
pub mod index;
pub mod mcp;
pub mod paths;
pub mod position;
pub mod syntax;
