use ecs_runtime::{Shader, ShaderBinding, ShaderBindingType};

#[test]
fn test_shader_binding_new() {
    let binding = ShaderBinding::new(3, ShaderBindingType::Texture2D);

    assert_eq!(binding.binding(), 3);
    assert!(matches!(binding.binding_type(), ShaderBindingType::Texture2D));
}

#[test]
fn test_shader_packs_words_little_endian() {
    let bytes = vec![0x01u8, 0x02, 0x03, 0x04, 0x05, 0x06, 0x07, 0x08];
    let shader = Shader::new(&bytes, String::from("main"), Vec::new(), Vec::new());

    assert_eq!(shader.code(), &vec![0x0403_0201u32, 0x0807_0605u32]);
    assert_eq!(shader.entry(), "main");
}

#[test]
fn test_shader_discards_trailing_partial_word() {
    let bytes = vec![0xAAu8, 0xBB, 0xCC, 0xDD, 0xEE, 0xFF];
    let shader = Shader::new(&bytes, String::from("vs_main"), Vec::new(), Vec::new());

    assert_eq!(shader.code(), &vec![0xDDCC_BBAAu32]);
}

#[test]
fn test_shader_keeps_bindings_and_inputs() {
    let bindings = vec![
        (String::from("uniforms"), ShaderBinding::new(0, ShaderBindingType::UniformBuffer)),
        (String::from("texture"), ShaderBinding::new(1, ShaderBindingType::Sampler)),
    ];
    let inputs = vec![(String::from("position"), 0u32)];
    let shader = Shader::new(&Vec::new(), String::from("fs_main"), bindings, inputs);

    assert!(shader.code().is_empty());
    assert_eq!(shader.bindings().len(), 2);
    assert_eq!(shader.bindings()[0].0, "uniforms");
    assert_eq!(shader.bindings()[1].1.binding(), 1);
    assert_eq!(shader.inputs()[0], (String::from("position"), 0u32));
}
