use alloy_engine::backend::{BackendPreference, DrawerManager, RenderBackend};
use alloy_engine::surface::{
    acquire_step, choose_present_mode, choose_surface_format, AcquireAction, PresentModeChoice,
    SurfaceStatus,
};

#[test]
fn auto_uses_gpu_when_present() {
    let m = DrawerManager::new(Some(7u32));
    assert_eq!(m.preference(), BackendPreference::Auto);
    assert!(m.is_using_gpu());
    assert!(!m.is_using_cpu());
    assert_eq!(m.active_backend(), RenderBackend::Gpu);
}

#[test]
fn auto_falls_back_to_cpu_without_gpu() {
    let m: DrawerManager<u32> = DrawerManager::new(None);
    assert!(!m.is_using_gpu());
    assert!(m.is_using_cpu());
    assert_eq!(m.active_backend(), RenderBackend::Cpu);
}

#[test]
fn force_cpu_ignores_gpu() {
    let mut m = DrawerManager::new(Some(1u8));
    m.set_preference(BackendPreference::ForceCpu);
    assert_eq!(m.preference(), BackendPreference::ForceCpu);
    assert_eq!(m.active_backend(), RenderBackend::Cpu);
    assert!(m.gpu_mut().is_none());
}

#[test]
fn force_gpu_without_gpu_skips_the_frame() {
    let mut m: DrawerManager<u8> = DrawerManager::new(None);
    m.set_preference(BackendPreference::ForceGpu);
    assert!(!m.is_using_gpu());
    assert_eq!(m.frame_backend(), None);
    assert!(m.gpu_mut().is_none());
}

#[test]
fn frame_backend_follows_preference() {
    let mut m = DrawerManager::new(Some(3u8));
    assert_eq!(m.frame_backend(), Some(RenderBackend::Gpu));
    m.set_preference(BackendPreference::ForceGpu);
    assert_eq!(m.frame_backend(), Some(RenderBackend::Gpu));
    m.set_preference(BackendPreference::ForceCpu);
    assert_eq!(m.frame_backend(), Some(RenderBackend::Cpu));
    let n: DrawerManager<u8> = DrawerManager::new(None);
    assert_eq!(n.frame_backend(), Some(RenderBackend::Cpu));
}

#[test]
fn gpu_mut_gives_the_gpu_drawer() {
    let mut m = DrawerManager::new(Some(41u32));
    m.set_preference(BackendPreference::ForceGpu);
    if let Some(g) = m.gpu_mut() {
        assert_eq!(*g, 41);
        *g = 42;
    } else {
        panic!("expected the GPU drawer");
    }
    assert_eq!(m.gpu_mut().map(|g| *g), Some(42));
}

#[test]
fn acquire_renders_on_success() {
    assert_eq!(acquire_step(0, SurfaceStatus::Success), (0, AcquireAction::Render));
    assert_eq!(acquire_step(2, SurfaceStatus::Suboptimal), (2, AcquireAction::Render));
}

#[test]
fn acquire_retries_then_gives_up() {
    assert_eq!(acquire_step(0, SurfaceStatus::Timeout), (1, AcquireAction::RetryAfterPause));
    assert_eq!(acquire_step(1, SurfaceStatus::Timeout), (2, AcquireAction::RetryAfterPause));
    assert_eq!(acquire_step(2, SurfaceStatus::Timeout), (3, AcquireAction::Skip));
    assert_eq!(acquire_step(0, SurfaceStatus::Outdated), (1, AcquireAction::ReconfigureAndRetry));
    assert_eq!(acquire_step(2, SurfaceStatus::Outdated), (3, AcquireAction::ReconfigureAndSkip));
}

#[test]
fn acquire_skips_on_fatal_statuses() {
    assert_eq!(acquire_step(0, SurfaceStatus::Lost), (0, AcquireAction::Skip));
    assert_eq!(acquire_step(1, SurfaceStatus::Occluded), (1, AcquireAction::Skip));
    assert_eq!(acquire_step(0, SurfaceStatus::Validation), (0, AcquireAction::Skip));
}

#[test]
fn acquire_loop_asks_at_most_three_times() {
    let mut attempts = 0u8;
    let mut requests = 0;
    loop {
        requests += 1;
        let (next, action) = acquire_step(attempts, SurfaceStatus::Timeout);
        attempts = next;
        match action {
            AcquireAction::RetryAfterPause | AcquireAction::ReconfigureAndRetry => continue,
            _ => break,
        }
    }
    assert_eq!(requests, 3);
}

#[test]
fn present_mode_preference() {
    let (mailbox, immediate, fifo, other) = (
        PresentModeChoice::Mailbox,
        PresentModeChoice::Immediate,
        PresentModeChoice::Fifo,
        PresentModeChoice::Other,
    );
    assert_eq!(choose_present_mode(&vec![fifo, immediate, mailbox]), mailbox);
    assert_eq!(choose_present_mode(&vec![fifo, immediate]), immediate);
    assert_eq!(choose_present_mode(&vec![fifo, other]), fifo);
    assert_eq!(choose_present_mode(&vec![]), fifo);
}

#[test]
fn surface_format_prefers_first_srgb() {
    assert_eq!(choose_surface_format(&vec![false, true, true]), 1);
    assert_eq!(choose_surface_format(&vec![false, false]), 0);
    assert_eq!(choose_surface_format(&vec![true]), 0);
}
