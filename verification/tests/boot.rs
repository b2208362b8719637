use micronet_antenna::{AntennaInitStage, Message, NodeId, RuntimeEvent};
use os_kernel_foundry::arch::{AddressTranslator, Architecture, InterruptController, Timer};
use os_kernel_foundry::boot::{BootContext, BootError, BootStage};
use os_kernel_foundry::kernel::Kernel;

#[derive(Debug, Clone)]
struct DemoTimer {
    tick: u64,
}

impl Timer for DemoTimer {
    type Tick = u64;
    fn now(&self) -> Self::Tick {
        self.tick
    }
}

#[derive(Debug, Default)]
struct DemoInterruptController {
    _last: Option<u32>,
}

impl InterruptController for DemoInterruptController {
    fn enable(&mut self, id: u32) {
        self._last = Some(id);
    }
    fn disable(&mut self, id: u32) {
        self._last = Some(id);
    }
    fn acknowledge(&mut self, id: u32) {
        self._last = Some(id);
    }
}

#[derive(Debug, Default)]
struct DemoAddressTranslator;

impl AddressTranslator for DemoAddressTranslator {
    fn translate(&self, _virtual_address: usize) -> Option<usize> {
        None
    }
}

#[derive(Debug)]
struct DemoArch {
    timer: DemoTimer,
    ic: DemoInterruptController,
    translator: DemoAddressTranslator,
}

impl Architecture for DemoArch {
    type Timer = DemoTimer;
    type InterruptController = DemoInterruptController;
    type AddressTranslator = DemoAddressTranslator;
    fn timer(&self) -> &Self::Timer {
        &self.timer
    }
    fn interrupt_controller(&mut self) -> &mut Self::InterruptController {
        &mut self.ic
    }
    fn address_translator(&self) -> &Self::AddressTranslator {
        &self.translator
    }
}

struct Stage(AntennaInitStage);

impl BootStage<DemoArch> for Stage {
    fn name(&self) -> &'static str {
        self.0.name()
    }

    fn run(&self, ctx: &mut BootContext<'_, DemoArch>) -> Result<(), BootError> {
        let _tick = ctx.arch().timer().now();
        let _ = self.0.run();
        Ok(())
    }
}

#[test]
fn boot_with_antenna_stage() {
    let arch = DemoArch {
        timer: DemoTimer { tick: 0 },
        ic: DemoInterruptController::default(),
        translator: DemoAddressTranslator,
    };
    let mut kernel = Kernel::new(arch);

    let stage = Stage(AntennaInitStage);
    let stages: [&dyn BootStage<DemoArch>; 1] = [&stage];
    let state = kernel.boot(&stages).expect("boot should succeed");
    assert!(matches!(state, os_kernel_foundry::boot::BootState::Completed { .. }));
}

#[test]
fn antenna_stage_announces_itself() {
    let stage = AntennaInitStage;
    assert_eq!(stage.name(), "antenna.init");
    let (rt, events) = stage.run();
    let me = NodeId::new([1u8; 32]);
    assert_eq!(rt.node_id(), me);
    assert_eq!(events, vec![RuntimeEvent::PeerDiscovered(me)]);
    assert_eq!(rt.state().peers(), &vec![me]);
    let _ = Message::Hello { node: me };
}
