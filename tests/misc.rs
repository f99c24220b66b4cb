use raytracer::integrator::PathTracingIntegrator;
use raytracer::options::RenderOptions;
use raytracer::scene_error::SceneError;

#[test]
fn render_options_hold_their_values() {
    let o = RenderOptions {
        scene_file: "scene.gltf".to_string(),
        output_file: "output.png".to_string(),
        width: 800,
        height: 600,
    };
    assert_eq!(o.scene_file, "scene.gltf");
    assert_eq!(o.output_file, "output.png");
    assert_eq!(o.width * o.height, 480000);
}

#[test]
fn scene_error_carries_the_format() {
    let e = SceneError::UnsupportedFormat("obj".to_string());
    match e {
        SceneError::UnsupportedFormat(m) => assert_eq!(m, "obj"),
        _ => panic!("wrong variant"),
    }
    assert!(matches!(SceneError::NoCameras, SceneError::NoCameras));
    assert!(matches!(SceneError::NoDefaultScene, SceneError::NoDefaultScene));
}

#[test]
fn path_tracer_can_be_made() {
    let _ = PathTracingIntegrator::new();
}
