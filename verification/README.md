# rjmp-stm32-flash

Flash drivers and power-fail-safe persistent storage for STM32 devices, verified with Verus.

- `src/dual_persist.rs` keeps sections of data in two mirrored regions of flash, on top of the
  `DualPageFlash` trait of `src/dual_page.rs`. `src/page_format.rs` says what a page looks like,
  `src/persist_laws.rs` and `src/interruption.rs` what holds of stored data, also when an update is
  interrupted.
- `src/flash_gx.rs` and `src/flash_l5.rs` are drivers for STM32G4 and STM32L5. They decide what is
  to be done to the flash controller and hand it out as lists of commands. `src/flash_chip.rs`
  models a flash memory and its controller; `src/gx_laws.rs` and `src/l5_laws.rs` tell what the
  commands make of it.
- `app/` carries out the commands on the registers, implements the traits of `embedded-storage` and
  feeds `embedded-io` readers into updates.
