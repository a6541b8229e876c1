//! Flash drivers and power-fail-safe persistent storage for STM32 devices
//!
//! [`dual_persist`] keeps sections of data in two mirrored regions of flash, which a driver makes
//! accessible through the [`DualPageFlash`] trait. [`flash_gx`] and [`flash_l5`] are such drivers:
//! they decide what is to be done to the flash controller and hand it out as lists of commands.

pub mod double_word;
pub mod dual_page;
pub mod dual_persist;
pub mod flash_chip;
pub mod flash_gx;
pub mod flash_l5;
pub mod fletcher16;
pub mod gx_laws;
pub mod gx_order;
pub mod gx_registers;
pub mod interruption;
pub mod l5_laws;
pub mod l5_order;
pub mod l5_registers;
pub mod layout_laws;
pub mod le_bytes;
pub mod page_format;
pub mod persist_laws;
pub mod registers;
pub mod section_update;

pub use dual_page::{DualPageFlash, Page};
pub use dual_persist::{
    load_sections, update_sections, write_section, PersistWriteError, Section, SectionIterator,
};
pub use flash_gx::{
    erase_page, lock_flash, unlock_flash, wait_busy, FlashError, Stm32gxFlash, Stm32gxPagePair,
};
pub use section_update::{SectionUpdate, UpdateSource};
