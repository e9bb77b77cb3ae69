use blog_os::interrupts::{InterruptIndex, PIC_1_OFFSET};
use blog_os::testing::QemuExitCode;

#[test]
fn interrupt_vector_numbers() {
    assert_eq!(PIC_1_OFFSET, 32);
    assert_eq!(InterruptIndex::Timer.as_u8(), 32);
    assert_eq!(InterruptIndex::Keyboard.as_u8(), 33);
}

#[test]
fn qemu_exit_codes() {
    assert_eq!(QemuExitCode::Success.code(), 0x10);
    assert_eq!(QemuExitCode::Failed.code(), 0x11);
}
