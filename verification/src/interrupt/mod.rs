//! Interrupt handling: the saved register context, the interrupt descriptor
//! table and the decisions the handlers take.

pub mod context;
pub mod idt;


pub mod handler;
pub mod timer;
